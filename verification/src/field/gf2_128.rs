//! GF(2^128) in GHASH form: irreducible polynomial x^128 + x^7 + x^2 + x + 1.
//!
//! Layout: `lo` holds coefficients x^0..x^63, `hi` holds x^64..x^127. The
//! product of the field is specified in [`crate::field::ghash_poly`]; `+` and
//! `*` on `F128` stand for the field operations in contracts too.
use core::ops::{Add, AddAssign, BitXor, BitXorAssign, Mul, MulAssign};
use vstd::prelude::*;
use vstd::std_specs::ops::{AddSpecImpl, BitXorSpecImpl, MulSpecImpl};
use crate::field::frobenius::{conjugate_product, frobenius, lemma_inverse};
use crate::field::ghash_poly::{
    fold_small, join, lemma_fold, lemma_join, lemma_mul_x_pow_add, lemma_product_associates,
    lemma_product_commutes, lemma_product_distributes, lemma_product_mul_x_left,
    lemma_product_mul_x_pow, lemma_product_units, lemma_split, lemma_x_pow, lemma_xor, mul_x,
    mul_x_pow, product,
};

pub mod aarch64;
pub mod software;
pub mod x86_64;

verus! {

#[derive(Clone, Copy, Debug, Default, PartialEq, Eq, Hash, Structural)]
pub struct F128 {
    pub lo: u64,
    pub hi: u64,
}

impl F128 {
    /// The element as a polynomial: bit `i` is the coefficient of `x^i`.
    pub open spec fn poly(self) -> u128 {
        join(self.lo, self.hi)
    }

    /// The element with the given polynomial.
    pub open spec fn from_poly(p: u128) -> F128 {
        F128 { lo: p as u64, hi: (p >> 64) as u64 }
    }

    /// Addition in the field: coefficient-wise exclusive or.
    #[verifier::opaque]
    pub open spec fn spec_add(self, rhs: F128) -> F128 {
        F128 { lo: self.lo ^ rhs.lo, hi: self.hi ^ rhs.hi }
    }

    /// Multiplication in the field.
    #[verifier::opaque]
    pub open spec fn spec_mul(self, rhs: F128) -> F128 {
        F128::from_poly(product(self.poly(), rhs.poly()))
    }

    /// The multiplicative inverse of a nonzero element; zero for zero.
    pub open spec fn inverse(self) -> F128 {
        if self == F128::zero() {
            F128::zero()
        } else {
            choose|r: F128| self * r == F128::one()
        }
    }

    #[inline]
    #[verifier::allow_in_spec]
    pub fn zero() -> F128
        returns
            (F128 { lo: 0, hi: 0 }),
    {
        F128 { lo: 0, hi: 0 }
    }

    #[inline]
    #[verifier::allow_in_spec]
    pub fn one() -> F128
        returns
            (F128 { lo: 1, hi: 0 }),
    {
        F128 { lo: 1, hi: 0 }
    }

    #[inline]
    #[verifier::allow_in_spec]
    pub fn new(lo: u64, hi: u64) -> F128
        returns
            (F128 { lo: lo, hi: hi }),
    {
        F128 { lo, hi }
    }

    /// The generator (the element `x`). [`mul_by_x`] multiplies by it.
    #[inline]
    #[verifier::allow_in_spec]
    pub fn generator() -> F128
        returns
            (F128 { lo: 2, hi: 0 }),
    {
        F128 { lo: 2, hi: 0 }
    }

    #[inline]
    pub fn is_zero(self) -> (r: bool)
        ensures
            r == (self == F128::zero()),
    {
        self.lo == 0 && self.hi == 0
    }

    /// 256-bit unreduced product `self · rhs`. Many of these can be XORed into
    /// one [`F256Unreduced`] accumulator and reduced once at the end.
    #[inline]
    pub fn mul_unreduced(self, rhs: F128) -> (r: F256Unreduced)
        ensures
            r.value() == self * rhs,
            r == F256Unreduced::unreduced_product(self, rhs),
    {
        software::ghash_mul_unreduced(self, rhs)
    }

    /// Multiplicative inverse via Fermat: `self^(2^128 − 2)`, which is zero for zero.
    pub fn inv(self) -> (r: F128)
        ensures
            r == self.inverse(),
            self != F128::zero() ==> self * r == F128::one(),
            self == F128::zero() ==> r == F128::zero(),
    {
        proof {
            lemma_poly_of_units();
            lemma_mul_poly(self, self);
            reveal_with_fuel(frobenius, 2);
        }
        let mut r = F128::one();
        let mut cur = self * self;
        let mut i: usize = 1;
        while i < 128
            invariant
                1 <= i <= 128,
                cur.poly() == frobenius(self.poly(), i as nat),
                r.poly() == conjugate_product(self.poly(), i as nat),
            decreases 128 - i,
        {
            proof {
                lemma_mul_poly(r, cur);
                lemma_mul_poly(cur, cur);
            }
            r = r * cur;
            cur = cur * cur;
            i = i + 1;
        }
        proof {
            lemma_poly_of_units();
            lemma_inverse(self.poly());
            lemma_from_poly(self);
            lemma_from_poly(r);
            lemma_mul_poly(self, r);
            lemma_from_poly(self * r);
            if self != F128::zero() {
                lemma_inverse_unique(self, r);
            }
        }
        r
    }
}

pub proof fn lemma_from_poly(a: F128)
    ensures
        F128::from_poly(a.poly()) == a,
{
    lemma_join(a.lo, a.hi, 0, 0);
}

pub proof fn lemma_poly_from(p: u128)
    ensures
        F128::from_poly(p).poly() == p,
{
    lemma_split(p);
}

pub proof fn lemma_poly_of_units()
    ensures
        F128::zero().poly() == 0,
        F128::one().poly() == 1,
        F128::generator().poly() == 2,
        (F128 { lo: 0x87, hi: 0 }).poly() == 0x87,
        F128::from_poly(0) == F128::zero(),
        F128::from_poly(1) == F128::one(),
{
    lemma_from_poly(F128::zero());
    lemma_from_poly(F128::one());
    lemma_join(0, 0, 0, 0);
    lemma_join(1, 0, 0, 0);
    lemma_join(2, 0, 0, 0);
    lemma_join(0x87, 0, 0, 0);
}

pub proof fn lemma_add_poly(a: F128, b: F128)
    ensures
        (a + b).poly() == a.poly() ^ b.poly(),
{
    reveal(F128::spec_add);
    lemma_join(a.lo, a.hi, b.lo, b.hi);
}

pub proof fn lemma_mul_poly(a: F128, b: F128)
    ensures
        (a * b).poly() == product(a.poly(), b.poly()),
{
    reveal(F128::spec_mul);
    lemma_poly_from(product(a.poly(), b.poly()));
}

proof fn lemma_poly_injective(a: F128, b: F128)
    requires
        a.poly() == b.poly(),
    ensures
        a == b,
{
    lemma_from_poly(a);
    lemma_from_poly(b);
}

/// Addition is commutative.
pub proof fn lemma_add_commutes(a: F128, b: F128)
    ensures
        a + b == b + a,
{
    lemma_add_rules(a, b, a, b);
}

/// Addition is associative.
pub proof fn lemma_add_associates(a: F128, b: F128, c: F128)
    ensures
        (a + b) + c == a + (b + c),
{
    lemma_add_rules(a, b, c, c);
}

/// Zero is neutral for addition.
pub proof fn lemma_add_zero(a: F128)
    ensures
        a + F128::zero() == a,
        F128::zero() + a == a,
{
    lemma_add_rules(a, a, a, a);
}

/// Every element is its own negative.
pub proof fn lemma_add_self(a: F128)
    ensures
        a + a == F128::zero(),
{
    lemma_add_rules(a, a, a, a);
}

/// The ways in which sums of up to four terms are rearranged.
pub proof fn lemma_add_rules(a: F128, b: F128, c: F128, d: F128)
    ensures
        a + b == b + a,
        (a + b) + c == a + (b + c),
        a + a == F128::zero(),
        a + F128::zero() == a,
        F128::zero() + a == a,
        (a + b) + b == a,
        a + (a + b) == b,
        (a + b) + (c + d) == (a + c) + (b + d),
        (a + b) + (a + d) == b + d,
{
    lemma_poly_of_units();
    let (p, q, r, s) = (a.poly(), b.poly(), c.poly(), d.poly());
    lemma_xor(p, q, r, s);
    lemma_xor(q, p, 0, 0);
    lemma_xor(p, p ^ q, 0, 0);
    lemma_add_poly(a, b);
    lemma_add_poly(b, a);
    lemma_add_poly(a + b, c);
    lemma_add_poly(b, c);
    lemma_add_poly(a, b + c);
    lemma_add_poly(a, a);
    lemma_add_poly(a, F128::zero());
    lemma_add_poly(F128::zero(), a);
    lemma_add_poly(a + b, b);
    lemma_add_poly(a, a + b);
    lemma_add_poly(c, d);
    lemma_add_poly(a, c);
    lemma_add_poly(b, d);
    lemma_add_poly(a, d);
    lemma_add_poly(a + b, c + d);
    lemma_add_poly(a + c, b + d);
    lemma_add_poly(a + b, a + d);
    lemma_poly_injective(a + b, b + a);
    lemma_poly_injective((a + b) + c, a + (b + c));
    lemma_poly_injective(a + a, F128::zero());
    lemma_poly_injective(a + F128::zero(), a);
    lemma_poly_injective(F128::zero() + a, a);
    lemma_poly_injective((a + b) + b, a);
    lemma_poly_injective(a + (a + b), b);
    lemma_poly_injective((a + b) + (c + d), (a + c) + (b + d));
    lemma_poly_injective((a + b) + (a + d), b + d);
}

/// Multiplication is commutative.
pub proof fn lemma_mul_commutes(a: F128, b: F128)
    ensures
        a * b == b * a,
{
    lemma_mul_poly(a, b);
    lemma_mul_poly(b, a);
    lemma_product_commutes(a.poly(), b.poly());
    lemma_poly_injective(a * b, b * a);
}

/// Multiplication is associative.
pub proof fn lemma_mul_associates(a: F128, b: F128, c: F128)
    ensures
        (a * b) * c == a * (b * c),
{
    lemma_mul_poly(a, b);
    lemma_mul_poly(b, c);
    lemma_mul_poly(a * b, c);
    lemma_mul_poly(a, b * c);
    lemma_product_associates(a.poly(), b.poly(), c.poly());
    lemma_poly_injective((a * b) * c, a * (b * c));
}

/// Multiplication distributes over addition.
pub proof fn lemma_mul_distributes(a: F128, b: F128, c: F128)
    ensures
        a * (b + c) == a * b + a * c,
        (b + c) * a == b * a + c * a,
{
    lemma_mul_poly(a, b);
    lemma_mul_poly(a, c);
    lemma_mul_poly(b, a);
    lemma_mul_poly(c, a);
    lemma_add_poly(b, c);
    lemma_mul_poly(a, b + c);
    lemma_mul_poly(b + c, a);
    lemma_add_poly(a * b, a * c);
    lemma_add_poly(b * a, c * a);
    lemma_product_distributes(a.poly(), b.poly(), c.poly());
    lemma_poly_injective(a * (b + c), a * b + a * c);
    lemma_poly_injective((b + c) * a, b * a + c * a);
}

/// One is neutral for multiplication and zero absorbs.
pub proof fn lemma_mul_units(a: F128)
    ensures
        a * F128::one() == a,
        F128::one() * a == a,
        a * F128::zero() == F128::zero(),
        F128::zero() * a == F128::zero(),
{
    lemma_poly_of_units();
    lemma_product_units(a.poly());
    lemma_mul_poly(a, F128::one());
    lemma_mul_poly(F128::one(), a);
    lemma_mul_poly(a, F128::zero());
    lemma_mul_poly(F128::zero(), a);
    lemma_poly_injective(a * F128::one(), a);
    lemma_poly_injective(F128::one() * a, a);
    lemma_poly_injective(a * F128::zero(), F128::zero());
    lemma_poly_injective(F128::zero() * a, F128::zero());
}

proof fn lemma_inverse_exists(a: F128) -> (r: F128)
    requires
        a != F128::zero(),
    ensures
        a * r == F128::one(),
{
    lemma_poly_of_units();
    lemma_from_poly(a);
    lemma_inverse(a.poly());
    let r = F128::from_poly(conjugate_product(a.poly(), 128));
    lemma_poly_from(conjugate_product(a.poly(), 128));
    lemma_mul_poly(a, r);
    lemma_poly_injective(a * r, F128::one());
    r
}

proof fn lemma_inverse_unique(a: F128, r: F128)
    requires
        a * r == F128::one(),
    ensures
        r == a.inverse(),
{
    lemma_mul_units(r);
    if a == F128::zero() {
        assert(F128::zero() != F128::one());
    }
    let s = a.inverse();
    assert(a * s == F128::one());
    lemma_mul_units(s);
    lemma_mul_commutes(r, a);
    lemma_mul_associates(r, a, s);
}

/// Every nonzero element times its inverse is one.
pub proof fn lemma_mul_inverse(a: F128)
    requires
        a != F128::zero(),
    ensures
        a * a.inverse() == F128::one(),
        a.inverse() * a == F128::one(),
{
    let r = lemma_inverse_exists(a);
    lemma_inverse_unique(a, r);
    lemma_mul_commutes(a, a.inverse());
}

/// There are no divisors of zero.
pub proof fn lemma_no_zero_divisors(a: F128, b: F128)
    requires
        a * b == F128::zero(),
    ensures
        a == F128::zero() || b == F128::zero(),
{
    if a != F128::zero() {
        lemma_mul_inverse(a);
        lemma_mul_associates(a.inverse(), a, b);
        lemma_mul_units(b);
        lemma_mul_units(a.inverse());
    }
}

/// Multiplying by a nonzero element is injective.
pub proof fn lemma_mul_cancels(a: F128, b: F128, c: F128)
    requires
        a != F128::zero(),
        a * b == a * c,
    ensures
        b == c,
{
    lemma_mul_distributes(a, b, c);
    lemma_add_self(a * b);
    lemma_no_zero_divisors(a, b + c);
    lemma_add_rules(b, c, c, c);
    lemma_add_zero(c);
}

/// `(a·b)·(c·d) == (a·c)·(b·d)`.
pub proof fn lemma_mul_interchange(a: F128, b: F128, c: F128, d: F128)
    ensures
        (a * b) * (c * d) == (a * c) * (b * d),
{
    lemma_mul_associates(a, b, c * d);
    lemma_mul_associates(b, c, d);
    lemma_mul_commutes(b, c);
    lemma_mul_associates(c, b, d);
    lemma_mul_associates(a, c, b * d);
}

/// In characteristic two, squaring is additive.
pub proof fn lemma_square_of_sum(a: F128, b: F128)
    ensures
        (a + b) * (a + b) == a * a + b * b,
{
    lemma_mul_distributes(a + b, a, b);
    lemma_mul_distributes(a, a, b);
    lemma_mul_distributes(b, a, b);
    lemma_mul_commutes(a, b);
    lemma_add_rules(a * a, a * b, a * b, b * b);
    lemma_add_rules(a * b, a * a, a * b, b * b);
    lemma_add_associates(a * a, a * b, a * b + b * b);
    lemma_add_rules(a * b, b * b, b * b, b * b);
}

impl AddSpecImpl for F128 {
    open spec fn obeys_add_spec() -> bool {
        true
    }

    open spec fn add_req(self, rhs: F128) -> bool {
        true
    }

    open spec fn add_spec(self, rhs: F128) -> F128 {
        self + rhs
    }
}

impl Add for F128 {
    type Output = F128;

    #[inline]
    fn add(self, rhs: F128) -> (r: F128) {
        proof {
            reveal(F128::spec_add);
        }
        F128 { lo: self.lo ^ rhs.lo, hi: self.hi ^ rhs.hi }
    }
}

impl AddAssign for F128 {
    #[inline]
    fn add_assign(&mut self, rhs: F128)
        ensures
            *final(self) == *old(self) + rhs,
    {
        proof {
            reveal(F128::spec_add);
        }
        self.lo = self.lo ^ rhs.lo;
        self.hi = self.hi ^ rhs.hi;
    }
}

impl MulSpecImpl for F128 {
    open spec fn obeys_mul_spec() -> bool {
        true
    }

    open spec fn mul_req(self, rhs: F128) -> bool {
        true
    }

    open spec fn mul_spec(self, rhs: F128) -> F128 {
        self * rhs
    }
}

impl Mul for F128 {
    type Output = F128;

    #[inline]
    fn mul(self, rhs: F128) -> (r: F128) {
        software::ghash_mul(self, rhs)
    }
}

impl MulAssign for F128 {
    #[inline]
    fn mul_assign(&mut self, rhs: F128)
        ensures
            *final(self) == *old(self) * rhs,
    {
        *self = *self * rhs;
    }
}

proof fn lemma_mul_by_x_bits(lo: u64, hi: u64)
    by (bit_vector)
    ensures
        hi >> 63 == 0 ==> join(lo << 1, (hi << 1) | (lo >> 63)) == mul_x(join(lo, hi)),
        hi >> 63 == 1 ==> join((lo << 1) ^ 0x87, (hi << 1) | (lo >> 63)) == mul_x(join(lo, hi)),
        hi >> 63 == 0 || hi >> 63 == 1,
        0x87u64 & 0u64 == 0u64,
        0x87u64 & 0xffff_ffff_ffff_ffffu64 == 0x87u64,
        (lo << 1) ^ 0u64 == lo << 1,
{
}

/// Multiply by `x` (the generator): one shift and a conditional XOR with 0x87.
#[inline]
pub fn mul_by_x(z: F128) -> (r: F128)
    ensures
        r == F128::generator() * z,
{
    let carry: u64 = z.hi >> 63;
    let mask: u64 = 0u64.wrapping_sub(carry);
    proof {
        lemma_mul_by_x_bits(z.lo, z.hi);
        lemma_poly_of_units();
        lemma_mul_poly(F128::generator(), z);
        lemma_poly_of_x(0);
        lemma_product_mul_x_left(1, z.poly());
        lemma_product_units(z.poly());
    }
    let r = F128 { lo: (z.lo << 1) ^ (0x87 & mask), hi: (z.hi << 1) | (z.lo >> 63) };
    proof {
        lemma_poly_injective(r, F128::generator() * z);
    }
    r
}

proof fn lemma_poly_of_x(i: u64)
    by (bit_vector)
    ensures
        mul_x(1) == 2,
        i < 64 ==> join(1u64 << i, 0) == 1u128 << (i as u128),
        i < 64 ==> join(0, 1u64 << i) == 1u128 << ((i + 64) as u128),
{
}

/// The element with the single coefficient one at `x^i`: one bit of one word.
pub open spec fn power_of_x(i: nat) -> F128 {
    if i < 64 {
        F128 { lo: 1u64 << (i as u64), hi: 0 }
    } else {
        F128 { lo: 0, hi: 1u64 << ((i - 64) as u64) }
    }
}

proof fn lemma_poly_of_power(i: nat)
    requires
        i < 128,
    ensures
        power_of_x(i).poly() == mul_x_pow(1, i),
{
    lemma_x_pow(i);
    if i < 64 {
        lemma_poly_of_x(i as u64);
    } else {
        lemma_poly_of_x((i - 64) as u64);
        assert((i - 64) as u64 + 64 == i as u128);
    }
}

/// How single bits multiply, and all else by distributivity: exponents add up, and `x^128` is
/// `x^7 + x^2 + x + 1`. Sums are taken bit by bit.
pub proof fn lemma_powers_of_x_multiply(i: nat, j: nat, a: F128, b: F128)
    requires
        i < 128,
        j < 128,
    ensures
        i + j < 128 ==> power_of_x(i) * power_of_x(j) == power_of_x(i + j),
        i + j == 128 ==> power_of_x(i) * power_of_x(j) == (F128 { lo: 0x87, hi: 0 }),
        (a + b).lo == a.lo ^ b.lo,
        (a + b).hi == a.hi ^ b.hi,
{
    reveal(F128::spec_add);
    let (x, y) = (power_of_x(i), power_of_x(j));
    lemma_poly_of_power(i);
    lemma_poly_of_power(j);
    lemma_mul_poly(x, y);
    lemma_product_mul_x_pow(1, y.poly(), i);
    lemma_product_units(y.poly());
    lemma_mul_x_pow_add(1, j, i);
    assert((x * y).poly() == mul_x_pow(1, j + i));
    if i + j < 128 {
        lemma_poly_of_power(i + j);
        lemma_poly_injective(x * y, power_of_x(i + j));
    } else if i + j == 128 {
        lemma_x_pow(128);
        lemma_poly_of_units();
        lemma_poly_injective(x * y, F128 { lo: 0x87, hi: 0 });
    }
}

/// A 256-bit unreduced product: the polynomial with coefficient words `r0..r3`.
#[derive(Clone, Copy, Debug, Default, PartialEq, Eq, Structural)]
pub struct F256Unreduced {
    pub r0: u64,
    pub r1: u64,
    pub r2: u64,
    pub r3: u64,
}

impl F256Unreduced {
    /// The field element that the polynomial stands for: `low + high · x^128`,
    /// where `x^128 = x^7 + x^2 + x + 1`.
    pub open spec fn value(self) -> F128 {
        F128 { lo: self.r0, hi: self.r1 } + F128 { lo: self.r2, hi: self.r3 } * F128 {
            lo: 0x87,
            hi: 0,
        }
    }

    /// The polynomial product of `a` and `b`, assembled from the four products of halves.
    pub open spec fn unreduced_product(a: F128, b: F128) -> F256Unreduced {
        let ll = F128::from_poly(crate::field::ghash_poly::carryless_product(a.lo, b.lo));
        let lh = F128::from_poly(crate::field::ghash_poly::carryless_product(a.lo, b.hi));
        let hl = F128::from_poly(crate::field::ghash_poly::carryless_product(a.hi, b.lo));
        let hh = F128::from_poly(crate::field::ghash_poly::carryless_product(a.hi, b.hi));
        F256Unreduced {
            r0: ll.lo,
            r1: ll.hi ^ (lh.lo ^ hl.lo),
            r2: hh.lo ^ (lh.hi ^ hl.hi),
            r3: hh.hi,
        }
    }

    /// Coefficient-wise exclusive or.
    pub open spec fn spec_bitxor(self, rhs: F256Unreduced) -> F256Unreduced {
        F256Unreduced {
            r0: self.r0 ^ rhs.r0,
            r1: self.r1 ^ rhs.r1,
            r2: self.r2 ^ rhs.r2,
            r3: self.r3 ^ rhs.r3,
        }
    }

    #[inline]
    #[verifier::allow_in_spec]
    pub fn zero() -> F256Unreduced
        returns
            (F256Unreduced { r0: 0, r1: 0, r2: 0, r3: 0 }),
    {
        F256Unreduced { r0: 0, r1: 0, r2: 0, r3: 0 }
    }

    #[inline]
    pub fn reduce(self) -> (r: F128)
        ensures
            r == self.value(),
    {
        ghash_reduce(self.r0, self.r1, self.r2, self.r3)
    }
}

/// Reduction commutes with XOR: the value of a XOR of unreduced products is the
/// sum of their values, and the empty accumulator is worth zero.
pub proof fn lemma_reduction_commutes_with_xor(a: F256Unreduced, b: F256Unreduced)
    ensures
        a.spec_bitxor(b).value() == a.value() + b.value(),
        F256Unreduced::zero().value() == F128::zero(),
{
    reveal(F128::spec_add);
    let x128 = F128 { lo: 0x87, hi: 0 };
    let (la, ha) = (F128 { lo: a.r0, hi: a.r1 }, F128 { lo: a.r2, hi: a.r3 });
    let (lb, hb) = (F128 { lo: b.r0, hi: b.r1 }, F128 { lo: b.r2, hi: b.r3 });
    lemma_mul_distributes(x128, ha, hb);
    lemma_add_rules(la, lb, ha * x128, hb * x128);
    lemma_mul_units(x128);
    lemma_add_zero(F128::zero());
}

impl BitXorSpecImpl for F256Unreduced {
    open spec fn obeys_bitxor_spec() -> bool {
        true
    }

    open spec fn bitxor_req(self, rhs: F256Unreduced) -> bool {
        true
    }

    open spec fn bitxor_spec(self, rhs: F256Unreduced) -> F256Unreduced {
        self.spec_bitxor(rhs)
    }
}

impl BitXor for F256Unreduced {
    type Output = F256Unreduced;

    #[inline]
    fn bitxor(self, rhs: F256Unreduced) -> (r: F256Unreduced) {
        F256Unreduced {
            r0: self.r0 ^ rhs.r0,
            r1: self.r1 ^ rhs.r1,
            r2: self.r2 ^ rhs.r2,
            r3: self.r3 ^ rhs.r3,
        }
    }
}

impl BitXorAssign for F256Unreduced {
    #[inline]
    fn bitxor_assign(&mut self, rhs: F256Unreduced)
        ensures
            *final(self) == old(self).spec_bitxor(rhs),
    {
        self.r0 = self.r0 ^ rhs.r0;
        self.r1 = self.r1 ^ rhs.r1;
        self.r2 = self.r2 ^ rhs.r2;
        self.r3 = self.r3 ^ rhs.r3;
    }
}

spec fn overflow(r3: u64) -> u64 {
    (r3 >> 63) ^ (r3 >> 62) ^ (r3 >> 57)
}

proof fn lemma_ghash_reduce_bits(r0: u64, r1: u64, r2: u64, r3: u64, h: u128)
    by (bit_vector)
    requires
        h == join(r2, r3),
    ensures
        join(
            r0 ^ (r2 ^ (r2 << 1) ^ (r2 << 2) ^ (r2 << 7)) ^ (overflow(r3) ^ (overflow(r3) << 1) ^ (
            overflow(r3) << 2) ^ (overflow(r3) << 7)),
            r1 ^ (r3 ^ ((r3 << 1) | (r2 >> 63)) ^ ((r3 << 2) | (r2 >> 62)) ^ ((r3 << 7) | (r2
                >> 57))),
        ) == join(r0, r1) ^ (((h ^ ((h << 1u128) ^ fold_small(h >> 127u128))) ^ ((h << 2u128)
            ^ fold_small(h >> 126u128))) ^ ((h << 7u128) ^ fold_small(h >> 121u128))),
{
}

/// Fold the upper 128 bits (`r2`, `r3`) into the lower 128 bits (`r0`, `r1`):
/// x^128 ≡ x^7 + x^2 + x + 1, so U·x^128 ≡ U ^ (U<<1) ^ (U<<2) ^ (U<<7).
#[inline]
pub fn ghash_reduce(r0: u64, r1: u64, r2: u64, r3: u64) -> (r: F128)
    ensures
        r == (F256Unreduced { r0: r0, r1: r1, r2: r2, r3: r3 }).value(),
{
    let s1_lo: u64 = r2 << 1;
    let s1_hi: u64 = (r3 << 1) | (r2 >> 63);
    let s2_lo: u64 = r2 << 2;
    let s2_hi: u64 = (r3 << 2) | (r2 >> 62);
    let s7_lo: u64 = r2 << 7;
    let s7_hi: u64 = (r3 << 7) | (r2 >> 57);

    let t_lo: u64 = r2 ^ s1_lo ^ s2_lo ^ s7_lo;
    let t_hi: u64 = r3 ^ s1_hi ^ s2_hi ^ s7_hi;

    // Bits of r3 that shifted past position 127 (top 7 bits, in 3 shifts).
    let ov: u64 = (r3 >> 63) ^ (r3 >> 62) ^ (r3 >> 57);
    let corr: u64 = ov ^ (ov << 1) ^ (ov << 2) ^ (ov << 7);

    let r = F128 { lo: r0 ^ t_lo ^ corr, hi: r1 ^ t_hi };
    proof {
        let low = F128 { lo: r0, hi: r1 };
        let high = F128 { lo: r2, hi: r3 };
        let x128 = F128 { lo: 0x87, hi: 0 };
        lemma_poly_of_units();
        lemma_mul_poly(high, x128);
        lemma_add_poly(low, high * x128);
        lemma_fold(high.poly());
        lemma_ghash_reduce_bits(r0, r1, r2, r3, high.poly());
        lemma_poly_injective(r, low + high * x128);
    }
    r
}

} // verus!
