//! GF(2^8) with the AES irreducible polynomial x^8 + x^4 + x^3 + x + 1.
//!
//! Reduction: x^8 ≡ x^4 + x^3 + x + 1, so the upper byte h folds back as
//!   h ^ (h<<1) ^ (h<<3) ^ (h<<4).
use core::ops::{Add, AddAssign, Mul, MulAssign};
use vstd::prelude::*;
use vstd::std_specs::ops::{AddSpecImpl, MulSpecImpl};
use crate::field::gf2_128::{
    lemma_mul_associates, lemma_mul_commutes, lemma_mul_distributes, lemma_mul_units,
    lemma_no_zero_divisors, F128,
};
use crate::field::phi8::{lemma_phi8_homomorphism, lemma_phi8_injective, phi8_spec};

pub mod neon;

verus! {

/// `x · a`: shift up by one and replace `x^8` by `x^4 + x^3 + x + 1`.
pub open spec fn times_x(a: u8) -> u8 {
    (a << 1) ^ (if a >> 7 == 1 { 0x1bu8 } else { 0u8 })
}

/// `x^n · a`.
pub open spec fn times_x_pow(a: u8, n: nat) -> u8
    decreases n,
{
    if n == 0 {
        a
    } else {
        times_x(times_x_pow(a, (n - 1) as nat))
    }
}

/// `Σ_{i < n} a_i · x^i · b`, where `a_i` is bit `i` of `a`.
pub open spec fn partial_product8(a: u8, b: u8, n: nat) -> u8
    decreases n,
{
    if n == 0 {
        0
    } else {
        let rest = partial_product8(a, b, (n - 1) as nat);
        if (a >> ((n - 1) as u8)) & 1 == 1 {
            rest ^ times_x_pow(b, (n - 1) as nat)
        } else {
            rest
        }
    }
}

/// `Σ_{i < n} a_i · x^i · b` over GF(2)[x], with no reduction.
pub open spec fn carryless_partial8(a: u8, b: u8, n: nat) -> u16
    decreases n,
{
    if n == 0 {
        0
    } else {
        carryless_partial8(a, b, (n - 1) as nat) ^ (if (a >> ((n - 1) as u8)) & 1 == 1 {
            (b as u16) << ((n - 1) as u16)
        } else {
            0u16
        })
    }
}

/// The product of two polynomials of degree below 8 over GF(2)[x].
pub open spec fn carryless_product8(a: u8, b: u8) -> u16 {
    carryless_partial8(a, b, 8)
}

/// `low + high · (x^4 + x^3 + x + 1)`, folded twice.
pub open spec fn folded(p: u16) -> u8 {
    let h = p >> 8;
    let t = (p & 0xff) ^ h ^ (h << 1) ^ (h << 3) ^ (h << 4);
    let h2 = t >> 8;
    ((t & 0xff) ^ h2 ^ (h2 << 1) ^ (h2 << 3) ^ (h2 << 4)) as u8
}

#[derive(Clone, Copy, Debug, Default, PartialEq, Eq, Hash, Structural)]
pub struct F8(pub u8);

impl F8 {
    /// Addition in the field: exclusive or.
    #[verifier::opaque]
    pub open spec fn spec_add(self, rhs: F8) -> F8 {
        F8(self.0 ^ rhs.0)
    }

    /// Multiplication in the field.
    #[verifier::opaque]
    pub open spec fn spec_mul(self, rhs: F8) -> F8 {
        F8(partial_product8(self.0, rhs.0, 8))
    }

    /// The multiplicative inverse of a nonzero element; zero for zero.
    pub open spec fn inverse(self) -> F8 {
        if self == F8::zero() {
            F8::zero()
        } else {
            choose|r: F8| self * r == F8::one()
        }
    }

    #[inline]
    #[verifier::allow_in_spec]
    pub fn zero() -> F8
        returns
            F8(0),
    {
        F8(0)
    }

    #[inline]
    #[verifier::allow_in_spec]
    pub fn one() -> F8
        returns
            F8(1),
    {
        F8(1)
    }

    #[inline]
    #[verifier::allow_in_spec]
    pub fn new(v: u8) -> F8
        returns
            F8(v),
    {
        F8(v)
    }

    #[inline]
    pub fn is_zero(self) -> (r: bool)
        ensures
            r == (self == F8::zero()),
    {
        self.0 == 0
    }
}

proof fn lemma_xor8(a: u8, b: u8, c: u8, d: u8)
    by (bit_vector)
    ensures
        a ^ b == b ^ a,
        (a ^ b) ^ c == a ^ (b ^ c),
        a ^ a == 0,
        a ^ 0 == a,
        0 ^ a == a,
        (a ^ b) ^ b == a,
        a ^ (a ^ b) == b,
        (a ^ b) ^ (c ^ d) == (a ^ c) ^ (b ^ d),
        (a ^ b) ^ (a ^ d) == b ^ d,
{
}

/// The ways in which sums of up to four terms are rearranged.
pub proof fn lemma_add_rules8(a: F8, b: F8, c: F8, d: F8)
    ensures
        a + b == b + a,
        (a + b) + c == a + (b + c),
        a + a == F8::zero(),
        a + F8::zero() == a,
        F8::zero() + a == a,
        (a + b) + b == a,
        a + (a + b) == b,
        (a + b) + (c + d) == (a + c) + (b + d),
        (a + b) + (a + d) == b + d,
{
    reveal(F8::spec_add);
    lemma_xor8(a.0, b.0, c.0, d.0);
}

proof fn lemma_folded_bits(p: u16, q: u16, b: u8, i: u16)
    by (bit_vector)
    ensures
        folded(p ^ q) == folded(p) ^ folded(q),
        folded(0) == 0,
        folded((b as u16) << 0u16) == b,
        i < 7 ==> folded((b as u16) << ((i + 1) as u16)) == times_x(folded((b as u16) << i)),
        (2u8 >> 0u8) & 1 == 0,
        (2u8 >> 1u8) & 1 == 1,
        (2u8 >> 2u8) & 1 == 0,
        (2u8 >> 3u8) & 1 == 0,
        (2u8 >> 4u8) & 1 == 0,
        (2u8 >> 5u8) & 1 == 0,
        (2u8 >> 6u8) & 1 == 0,
        (2u8 >> 7u8) & 1 == 0,
        b < 128 ==> b >> 7 == 0 && b << 1 == 2 * b && (b << 1) ^ 0 == b << 1,
        b >= 128 ==> b >> 7 == 1 && b << 1 == 2 * b - 256,
        0u8 ^ b == b,
{
}

/// How the element `x` multiplies, and all else by the rules of a field: the coefficients move
/// up by one, and `x^8` is `x^4 + x^3 + x + 1`. Sums are taken bit by bit.
pub proof fn lemma_times_x8(a: F8, b: F8)
    ensures
        a.0 < 128 ==> F8(2) * a == F8((2 * a.0) as u8),
        a.0 >= 128 ==> F8(2) * a == F8((2 * a.0 - 256) as u8) + F8(0x1b),
        a + b == F8(a.0 ^ b.0),
{
    reveal(F8::spec_mul);
    reveal(F8::spec_add);
    let x = a.0;
    lemma_folded_bits(0, 0, x, 0);
    lemma_folded_bits(0, 0, times_x(x), 0);
    reveal_with_fuel(partial_product8, 9);
    reveal_with_fuel(times_x_pow, 2);
    assert(partial_product8(2, x, 2) == times_x(x));
    assert(partial_product8(2, x, 8) == times_x(x));
}

proof fn lemma_folded_shift(b: u8, n: nat)
    requires
        n < 8,
    ensures
        folded((b as u16) << (n as u16)) == times_x_pow(b, n),
    decreases n,
{
    lemma_folded_bits(0, 0, b, 0);
    if n > 0 {
        lemma_folded_shift(b, (n - 1) as nat);
        lemma_folded_bits(0, 0, b, (n - 1) as u16);
    }
}

proof fn lemma_folded_partial(a: u8, b: u8, n: nat)
    requires
        n <= 8,
    ensures
        folded(carryless_partial8(a, b, n)) == partial_product8(a, b, n),
    decreases n,
{
    lemma_folded_bits(0, 0, 0, 0);
    if n > 0 {
        let m = (n - 1) as nat;
        lemma_folded_partial(a, b, m);
        lemma_folded_shift(b, m);
        let rest = carryless_partial8(a, b, m);
        lemma_folded_bits(rest, (b as u16) << (m as u16), 0, 0);
        lemma_folded_bits(rest, 0, 0, 0);
        lemma_xor8(folded(rest), 0, 0, 0);
    }
}

/// The field product is the carry-less product folded once it is complete.
pub proof fn lemma_mul_is_folded(a: F8, b: F8)
    ensures
        a * b == F8(folded(carryless_product8(a.0, b.0))),
{
    reveal(F8::spec_mul);
    lemma_folded_partial(a.0, b.0, 8);
}

/// The bits of `a` spread to the even places.
spec fn spread8(a: u8) -> u16 {
    let s0 = a as u16;
    let s1 = (s0 ^ (s0 << 4)) & 0x0f0fu16;
    let s2 = (s1 ^ (s1 << 2)) & 0x3333u16;
    (s2 ^ (s2 << 1)) & 0x5555u16
}

proof fn lemma_square8(a: u8)
    by (bit_vector)
    ensures
        folded(carryless_product8(a, a)) == folded(spread8(a)),
{
}

proof fn lemma_frobenius8(
    a: u8,
    s1: u8,
    s2: u8,
    s3: u8,
    s4: u8,
    s5: u8,
    s6: u8,
    s7: u8,
)
    by (bit_vector)
    requires
        s1 == folded(spread8(a)),
        s2 == folded(spread8(s1)),
        s3 == folded(spread8(s2)),
        s4 == folded(spread8(s3)),
        s5 == folded(spread8(s4)),
        s6 == folded(spread8(s5)),
        s7 == folded(spread8(s6)),
    ensures
        folded(spread8(s7)) == a,
{
}


/// Multiplication is commutative.
pub proof fn lemma_mul_commutes8(a: F8, b: F8)
    ensures
        a * b == b * a,
{
    lemma_phi8_homomorphism(a, b);
    lemma_phi8_homomorphism(b, a);
    lemma_mul_commutes(phi8_spec(a), phi8_spec(b));
    lemma_phi8_injective(a * b, b * a);
}

/// Multiplication is associative.
pub proof fn lemma_mul_associates8(a: F8, b: F8, c: F8)
    ensures
        (a * b) * c == a * (b * c),
{
    lemma_phi8_homomorphism(a, b);
    lemma_phi8_homomorphism(b, c);
    lemma_phi8_homomorphism(a * b, c);
    lemma_phi8_homomorphism(a, b * c);
    lemma_mul_associates(phi8_spec(a), phi8_spec(b), phi8_spec(c));
    lemma_phi8_injective((a * b) * c, a * (b * c));
}

/// Multiplication distributes over addition.
pub proof fn lemma_mul_distributes8(a: F8, b: F8, c: F8)
    ensures
        a * (b + c) == a * b + a * c,
        (b + c) * a == b * a + c * a,
{
    lemma_phi8_homomorphism(b, c);
    lemma_phi8_homomorphism(a, b);
    lemma_phi8_homomorphism(a, c);
    lemma_phi8_homomorphism(a, b + c);
    lemma_phi8_homomorphism(a * b, a * c);
    lemma_mul_distributes(phi8_spec(a), phi8_spec(b), phi8_spec(c));
    lemma_phi8_injective(a * (b + c), a * b + a * c);
    lemma_mul_commutes8(a, b);
    lemma_mul_commutes8(a, c);
    lemma_mul_commutes8(a, b + c);
}

/// One is neutral for multiplication and zero absorbs.
pub proof fn lemma_mul_units8(a: F8)
    ensures
        a * F8::one() == a,
        F8::one() * a == a,
        a * F8::zero() == F8::zero(),
        F8::zero() * a == F8::zero(),
{
    lemma_phi8_homomorphism(a, F8::one());
    lemma_phi8_homomorphism(a, F8::zero());
    lemma_mul_units(phi8_spec(a));
    lemma_phi8_injective(a * F8::one(), a);
    lemma_phi8_injective(a * F8::zero(), F8::zero());
    lemma_mul_commutes8(a, F8::one());
    lemma_mul_commutes8(a, F8::zero());
}

/// There are no divisors of zero.
pub proof fn lemma_no_zero_divisors8(a: F8, b: F8)
    requires
        a * b == F8::zero(),
    ensures
        a == F8::zero() || b == F8::zero(),
{
    lemma_phi8_homomorphism(a, b);
    lemma_no_zero_divisors(phi8_spec(a), phi8_spec(b));
    if phi8_spec(a) == F128::zero() {
        lemma_phi8_injective(a, F8::zero());
    } else {
        lemma_phi8_injective(b, F8::zero());
    }
}

/// `a^(2^k)`.
pub open spec fn frobenius8(a: F8, k: nat) -> F8
    decreases k,
{
    if k == 0 {
        a
    } else {
        frobenius8(a, (k - 1) as nat) * frobenius8(a, (k - 1) as nat)
    }
}

/// `a^(2 + 4 + ... + 2^(k - 1))`.
pub open spec fn conjugate_product8(a: F8, k: nat) -> F8
    decreases k,
{
    if k <= 1 {
        F8::one()
    } else {
        conjugate_product8(a, (k - 1) as nat) * frobenius8(a, (k - 1) as nat)
    }
}

proof fn lemma_frobenius8_is_spread(a: F8, k: nat)
    requires
        k > 0,
    ensures
        frobenius8(a, k).0 == folded(spread8(frobenius8(a, (k - 1) as nat).0)),
{
    let b = frobenius8(a, (k - 1) as nat);
    lemma_mul_is_folded(b, b);
    lemma_square8(b.0);
}

/// `a^256 == a`.
pub proof fn lemma_frobenius8_is_identity(a: F8)
    ensures
        frobenius8(a, 8) == a,
{
    lemma_frobenius8_is_spread(a, 1);
    lemma_frobenius8_is_spread(a, 2);
    lemma_frobenius8_is_spread(a, 3);
    lemma_frobenius8_is_spread(a, 4);
    lemma_frobenius8_is_spread(a, 5);
    lemma_frobenius8_is_spread(a, 6);
    lemma_frobenius8_is_spread(a, 7);
    lemma_frobenius8_is_spread(a, 8);
    lemma_frobenius8(
        a.0,
        frobenius8(a, 1).0,
        frobenius8(a, 2).0,
        frobenius8(a, 3).0,
        frobenius8(a, 4).0,
        frobenius8(a, 5).0,
        frobenius8(a, 6).0,
        frobenius8(a, 7).0,
    );
    assert(frobenius8(a, 0) == a);
}

proof fn lemma_conjugates_telescope8(a: F8, k: nat)
    requires
        k >= 1,
    ensures
        (a * a) * conjugate_product8(a, k) == frobenius8(a, k),
    decreases k,
{
    if k == 1 {
        lemma_mul_units8(a * a);
        reveal_with_fuel(frobenius8, 2);
    } else {
        let m = (k - 1) as nat;
        lemma_conjugates_telescope8(a, m);
        lemma_mul_associates8(a * a, conjugate_product8(a, m), frobenius8(a, m));
    }
}

proof fn lemma_fermat_inverse8(a: F8)
    requires
        a != F8::zero(),
    ensures
        a * conjugate_product8(a, 8) == F8::one(),
{
    let c = conjugate_product8(a, 8);
    lemma_conjugates_telescope8(a, 8);
    lemma_frobenius8_is_identity(a);
    lemma_mul_associates8(a, a, c);
    lemma_mul_distributes8(a, a * c, F8::one());
    lemma_mul_units8(a);
    lemma_add_rules8(a, a, a, a);
    lemma_no_zero_divisors8(a, a * c + F8::one());
    lemma_add_rules8(a * c, F8::one(), a, a);
    lemma_add_rules8(F8::one(), a, a, a);
}

proof fn lemma_inverse_unique8(a: F8, r: F8)
    requires
        a * r == F8::one(),
    ensures
        r == a.inverse(),
{
    lemma_mul_units8(r);
    let s = a.inverse();
    assert(a * s == F8::one());
    lemma_mul_units8(s);
    lemma_mul_commutes8(r, a);
    lemma_mul_associates8(r, a, s);
}

/// Every nonzero element times its inverse is one.
pub proof fn lemma_mul_inverse8(a: F8)
    requires
        a != F8::zero(),
    ensures
        a * a.inverse() == F8::one(),
        a.inverse() * a == F8::one(),
{
    lemma_fermat_inverse8(a);
    lemma_inverse_unique8(a, conjugate_product8(a, 8));
    lemma_mul_commutes8(a, a.inverse());
}

/// `a^n`.
pub open spec fn power8(a: F8, n: nat) -> F8
    decreases n,
{
    if n == 0 {
        F8::one()
    } else {
        power8(a, (n - 1) as nat) * a
    }
}

proof fn lemma_power8_add(a: F8, m: nat, n: nat)
    ensures
        power8(a, m + n) == power8(a, m) * power8(a, n),
    decreases n,
{
    if n == 0 {
        lemma_mul_units8(power8(a, m));
    } else {
        lemma_power8_add(a, m, (n - 1) as nat);
        lemma_mul_associates8(power8(a, m), power8(a, (n - 1) as nat), a);
    }
}

/// Fermat's little theorem: `a^255 == 1` for every nonzero `a`.
pub proof fn lemma_fermat8(a: F8)
    requires
        a != F8::zero(),
    ensures
        power8(a, 255) == F8::one(),
{
    lemma_mul_units8(a);
    assert(power8(a, 1) == a) by {
        reveal_with_fuel(power8, 2);
    }
    lemma_power8_add(a, 1, 1);
    lemma_power8_add(a, 2, 2);
    lemma_power8_add(a, 4, 4);
    lemma_power8_add(a, 8, 8);
    lemma_power8_add(a, 16, 16);
    lemma_power8_add(a, 32, 32);
    lemma_power8_add(a, 64, 64);
    lemma_power8_add(a, 128, 128);
    reveal_with_fuel(frobenius8, 9);
    lemma_frobenius8_is_identity(a);
    lemma_power8_add(a, 255, 1);
    let e = power8(a, 255);
    lemma_mul_commutes8(e, a);
    lemma_mul_distributes8(a, e, F8::one());
    lemma_add_rules8(a, a, a, a);
    lemma_no_zero_divisors8(a, e + F8::one());
    lemma_add_rules8(e, F8::one(), a, a);
    lemma_add_rules8(F8::one(), a, a, a);
}

impl F8 {
    /// Multiplicative inverse via Fermat: x^254 = x^{-1}, which is zero for zero.
    /// Exponent bit pattern 0xFE = 0b11111110 — 7 squarings + 6 multiplies.
    pub fn inv(self) -> (r: F8)
        ensures
            r == self.inverse(),
            self != F8::zero() ==> self * r == F8::one(),
            self == F8::zero() ==> r == F8::zero(),
    {
        let mut result = F8::one();
        let mut sq = self;
        let mut i: u8 = 0;
        while i < 8
            invariant
                i <= 8,
                sq == frobenius8(self, i as nat),
                i == 0 ==> result == F8::one(),
                i > 0 ==> result == conjugate_product8(self, i as nat),
            decreases 8 - i,
        {
            proof {
                lemma_exponent_bits(i);
            }
            if (0xFEu8 >> i) & 1 != 0 {
                result = result * sq;
            }
            sq = sq * sq;
            i = i + 1;
        }
        proof {
            if self == F8::zero() {
                lemma_conjugates_of_zero8();
            } else {
                lemma_fermat_inverse8(self);
                lemma_inverse_unique8(self, result);
            }
        }
        result
    }
}

proof fn lemma_exponent_bits(i: u8)
    by (bit_vector)
    ensures
        i == 0 ==> (0xFEu8 >> i) & 1 == 0,
        0 < i < 8 ==> (0xFEu8 >> i) & 1 == 1,
{
}

proof fn lemma_conjugates_of_zero8()
    ensures
        conjugate_product8(F8::zero(), 8) == F8::zero(),
{
    let z = F8::zero();
    lemma_mul_units8(z);
    reveal_with_fuel(frobenius8, 8);
    lemma_mul_units8(conjugate_product8(z, 7));
}

impl AddSpecImpl for F8 {
    open spec fn obeys_add_spec() -> bool {
        true
    }

    open spec fn add_req(self, rhs: F8) -> bool {
        true
    }

    open spec fn add_spec(self, rhs: F8) -> F8 {
        self + rhs
    }
}

impl Add for F8 {
    type Output = F8;

    #[inline]
    fn add(self, rhs: F8) -> (r: F8) {
        proof {
            reveal(F8::spec_add);
        }
        F8(self.0 ^ rhs.0)
    }
}

impl AddAssign for F8 {
    #[inline]
    fn add_assign(&mut self, rhs: F8)
        ensures
            *final(self) == *old(self) + rhs,
    {
        proof {
            reveal(F8::spec_add);
        }
        self.0 = self.0 ^ rhs.0;
    }
}

impl MulSpecImpl for F8 {
    open spec fn obeys_mul_spec() -> bool {
        true
    }

    open spec fn mul_req(self, rhs: F8) -> bool {
        true
    }

    open spec fn mul_spec(self, rhs: F8) -> F8 {
        self * rhs
    }
}

impl Mul for F8 {
    type Output = F8;

    #[inline]
    fn mul(self, rhs: F8) -> (r: F8) {
        proof {
            lemma_mul_is_folded(self, rhs);
        }
        F8(gf8_reduce(clmul8_software(self.0, rhs.0)))
    }
}

impl MulAssign for F8 {
    #[inline]
    fn mul_assign(&mut self, rhs: F8)
        ensures
            *final(self) == *old(self) * rhs,
    {
        *self = *self * rhs;
    }
}

/// Carry-less product of two bytes; the result fits in 15 bits.
#[inline]
pub fn clmul8_software(a: u8, b: u8) -> (r: u16)
    ensures
        r == carryless_product8(a, b),
{
    let b16: u16 = b as u16;
    let mut acc: u16 = 0;
    let mut i: u8 = 0;
    while i < 8
        invariant
            i <= 8,
            b16 == b as u16,
            acc == carryless_partial8(a, b, i as nat),
        decreases 8 - i,
    {
        proof {
            lemma_clmul8_step(a, acc, i);
        }
        if (a >> i) & 1 != 0 {
            acc = acc ^ (b16 << i);
        }
        i = i + 1;
    }
    acc
}

proof fn lemma_clmul8_step(a: u8, acc: u16, i: u8)
    by (bit_vector)
    ensures
        (a >> i) & 1 == 0 || (a >> i) & 1 == 1,
        acc ^ 0 == acc,
{
}

/// Reduce a polynomial modulo x^8 + x^4 + x^3 + x + 1. Two-step fold: the first
/// turns 15-bit input into ≤12-bit, the second into ≤8-bit.
#[inline]
pub fn gf8_reduce(p: u16) -> (r: u8)
    ensures
        r == folded(p),
        F8(r) == F8((p & 0xff) as u8) + F8(0x1b) * F8((p >> 8) as u8),
{
    let h: u16 = p >> 8;
    let t: u16 = (p & 0xff) ^ h ^ (h << 1) ^ (h << 3) ^ (h << 4);
    let h2: u16 = t >> 8;
    proof {
        reveal(F8::spec_add);
        lemma_mul_is_folded(F8(0x1b), F8((p >> 8) as u8));
        lemma_reduce_bits(p, (p >> 8) as u8);
    }
    ((t & 0xff) ^ h2 ^ (h2 << 1) ^ (h2 << 3) ^ (h2 << 4)) as u8
}

proof fn lemma_reduce_bits(p: u16, h: u8)
    by (bit_vector)
    requires
        h == (p >> 8) as u8,
    ensures
        folded(p) == ((p & 0xff) as u8) ^ folded(carryless_product8(0x1b, h)),
{
}

} // verus!
