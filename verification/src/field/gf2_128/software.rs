//! Portable multiplication, four coefficients of the first factor at a time, or eight where
//! the second factor is shared by many products.
use vstd::prelude::*;
use crate::field::gf2_128::{
    ghash_reduce, lemma_add_poly, lemma_from_poly, lemma_mul_poly, lemma_poly_of_units, mul_by_x,
    F128, F256Unreduced,
};
use crate::field::ghash_poly::{
    carryless_product, join, lemma_carryless_is_product, lemma_fold, lemma_join,
    lemma_mul_x_pow_64, lemma_mul_x_pow_half, lemma_product_distributes, lemma_product_mul_x_left,
    lemma_product_mul_x_pow, lemma_product_units, lemma_schoolbook, lemma_split, lemma_xor, mul_x,
    product,
};

verus! {

/// `x^4 · p`.
pub open spec fn mul_x4(p: u128) -> u128 {
    mul_x(mul_x(mul_x(mul_x(p))))
}

proof fn lemma_mul_by_x4_bits(lo: u64, hi: u64, t: u64)
    by (bit_vector)
    requires
        t == hi >> 60,
    ensures
        join((lo << 4) ^ (t ^ (t << 1) ^ (t << 2) ^ (t << 7)), (hi << 4) | (lo >> 60)) == mul_x4(
            join(lo, hi),
        ),
{
}

proof fn lemma_mul_by_x8_bits(lo: u64, hi: u64, t: u64)
    by (bit_vector)
    requires
        t == hi >> 56,
    ensures
        join((lo << 8) ^ (t ^ (t << 1) ^ (t << 2) ^ (t << 7)), (hi << 8) | (lo >> 56)) == mul_x4(
            mul_x4(join(lo, hi)),
        ),
{
}

proof fn lemma_nibble_bits(y: u64, k: u128)
    by (bit_vector)
    ensures
        y as u128 == mul_x4((y >> 4) as u128) ^ ((y & 15) as u128),
        y & 15 < 16,
        y as u128 == mul_x4(mul_x4((y >> 8) as u128)) ^ ((y & 255) as u128),
        y & 255 < 256,
        y ^ 0 == y,
        k < 128 ==> mul_x(k) == 2 * k && mul_x(k) ^ 1 == 2 * k + 1,
{
}

proof fn lemma_shifts(w: u64, s: u64)
    by (bit_vector)
    requires
        s <= 60,
    ensures
        s <= 56 ==> (w >> s) >> 4 == w >> ((s + 4) as u64),
        s == 60 ==> (w >> s) >> 4 == 0,
        s <= 48 ==> (w >> s) >> 8 == w >> ((s + 8) as u64),
        s == 56 ==> (w >> s) >> 8 == 0,
        w >> 0u64 == w,
{
}

/// Multiplication by `x^4` passes through a product.
proof fn lemma_product_mul_x4(a: u128, b: u128)
    ensures
        product(mul_x4(a), b) == mul_x4(product(a, b)),
{
    lemma_product_mul_x_left(a, b);
    lemma_product_mul_x_left(mul_x(a), b);
    lemma_product_mul_x_left(mul_x(mul_x(a)), b);
    lemma_product_mul_x_left(mul_x(mul_x(mul_x(a))), b);
}

/// Multiply by `x^4`: the four coefficients that leave come back times `x^7 + x^2 + x + 1`.
#[inline]
fn mul_by_x4(z: F128) -> (r: F128)
    ensures
        r.poly() == mul_x4(z.poly()),
{
    let t: u64 = z.hi >> 60;
    proof {
        lemma_mul_by_x4_bits(z.lo, z.hi, t);
    }
    F128 {
        lo: (z.lo << 4) ^ (t ^ (t << 1) ^ (t << 2) ^ (t << 7)),
        hi: (z.hi << 4) | (z.lo >> 60),
    }
}

/// Multiply by `x^8`.
#[inline]
fn mul_by_x8(z: F128) -> (r: F128)
    ensures
        r.poly() == mul_x4(mul_x4(z.poly())),
{
    let t: u64 = z.hi >> 56;
    proof {
        lemma_mul_by_x8_bits(z.lo, z.hi, t);
    }
    F128 {
        lo: (z.lo << 8) ^ (t ^ (t << 1) ^ (t << 2) ^ (t << 7)),
        hi: (z.hi << 8) | (z.lo >> 56),
    }
}

/// The products of `b` and the first `size` polynomials, by their bit patterns.
spec fn is_window(t: Seq<F128>, b: u128, size: nat) -> bool {
    &&& t.len() == size
    &&& forall|n: int| 0 <= n < size ==> (#[trigger] t[n]).poly() == product(n as u128, b)
}

/// `even` and `odd` are the products of `b` and `2k`, `2k + 1`.
proof fn lemma_window_step(k: u128, b: F128, half: F128, even: F128, odd: F128)
    requires
        k < 128,
        half.poly() == product(k, b.poly()),
        even == F128::generator() * half,
        odd == even + b,
    ensures
        even.poly() == product((2 * k) as u128, b.poly()),
        odd.poly() == product((2 * k + 1) as u128, b.poly()),
{
    let p = b.poly();
    lemma_nibble_bits(0, k);
    lemma_nibble_bits(0, 1);
    lemma_product_mul_x_left(k, p);
    lemma_product_units(p);
    lemma_product_units(half.poly());
    lemma_product_distributes(p, mul_x(k), 1);
    lemma_product_mul_x_left(1, half.poly());
    lemma_poly_of_units();
    lemma_mul_poly(F128::generator(), half);
    lemma_add_poly(even, b);
}

/// The products of `b` and the polynomials of degree below four.
#[inline]
fn window(b: F128) -> (t: [F128; 16])
    ensures
        is_window(t@, b.poly(), 16),
{
    let z = F128::zero();
    let t2 = mul_by_x(b);
    let t3 = t2 + b;
    let t4 = mul_by_x(t2);
    let t5 = t4 + b;
    let t6 = mul_by_x(t3);
    let t7 = t6 + b;
    let t8 = mul_by_x(t4);
    let t9 = t8 + b;
    let t10 = mul_by_x(t5);
    let t11 = t10 + b;
    let t12 = mul_by_x(t6);
    let t13 = t12 + b;
    let t14 = mul_by_x(t7);
    let t15 = t14 + b;
    proof {
        lemma_poly_of_units();
        lemma_product_units(b.poly());
        lemma_window_step(1, b, b, t2, t3);
        lemma_window_step(2, b, t2, t4, t5);
        lemma_window_step(3, b, t3, t6, t7);
        lemma_window_step(4, b, t4, t8, t9);
        lemma_window_step(5, b, t5, t10, t11);
        lemma_window_step(6, b, t6, t12, t13);
        lemma_window_step(7, b, t7, t14, t15);
    }
    [z, b, t2, t3, t4, t5, t6, t7, t8, t9, t10, t11, t12, t13, t14, t15]
}

/// The product of the polynomial `w`, of degree below 64, and the element whose window is
/// given, by Horner's rule.
#[inline]
fn word_product(w: u64, t: &[F128; 16], Ghost(b): Ghost<u128>) -> (r: F128)
    requires
        is_window(t@, b, 16),
    ensures
        r.poly() == product(w as u128, b),
{
    let mut acc = F128::zero();
    let mut s: u64 = 64;
    proof {
        lemma_poly_of_units();
        lemma_product_units(b);
        lemma_shifts(w, 0);
    }
    while s > 0
        invariant
            s <= 64,
            s % 4 == 0,
            is_window(t@, b, 16),
            s == 64 ==> acc.poly() == product(0, b),
            s < 64 ==> acc.poly() == product((w >> s) as u128, b),
        decreases s,
    {
        s = s - 4;
        let y: u64 = w >> s;
        let n: u64 = y & 15;
        proof {
            lemma_shifts(w, s);
            lemma_nibble_bits(y, 0);
            lemma_product_mul_x4((y >> 4) as u128, b);
            lemma_product_distributes(b, mul_x4((y >> 4) as u128), n as u128);
        }
        let shifted = mul_by_x4(acc);
        let term = t[n as usize];
        proof {
            lemma_add_poly(shifted, term);
        }
        acc = shifted + term;
    }
    acc
}

/// The products of `b` and the polynomials of degree below eight.
fn wide_window(b: F128) -> (t: Vec<F128>)
    ensures
        is_window(t@, b.poly(), 256),
{
    let mut t: Vec<F128> = Vec::with_capacity(256);
    t.push(F128::zero());
    t.push(b);
    proof {
        lemma_poly_of_units();
        lemma_product_units(b.poly());
    }
    let mut k: usize = 1;
    while k < 128
        invariant
            1 <= k <= 128,
            is_window(t@, b.poly(), 2 * k as nat),
        decreases 128 - k,
    {
        let half = t[k];
        let even = mul_by_x(half);
        let odd = even + b;
        proof {
            assert(t@[k as int].poly() == product(k as u128, b.poly()));
            lemma_window_step(k as u128, b, half, even, odd);
        }
        t.push(even);
        t.push(odd);
        k = k + 1;
    }
    t
}

/// The product of the polynomial `w`, of degree below 64, and the element whose wide window
/// is given, by Horner's rule.
#[inline]
fn wide_word_product(w: u64, t: &Vec<F128>, Ghost(b): Ghost<u128>) -> (r: F128)
    requires
        is_window(t@, b, 256),
    ensures
        r.poly() == product(w as u128, b),
{
    let mut acc = F128::zero();
    let mut s: u64 = 64;
    proof {
        lemma_poly_of_units();
        lemma_product_units(b);
        lemma_shifts(w, 0);
    }
    while s > 0
        invariant
            s <= 64,
            s % 8 == 0,
            is_window(t@, b, 256),
            s == 64 ==> acc.poly() == product(0, b),
            s < 64 ==> acc.poly() == product((w >> s) as u128, b),
        decreases s,
    {
        s = s - 8;
        let y: u64 = w >> s;
        let n: u64 = y & 255;
        proof {
            lemma_shifts(w, s);
            lemma_nibble_bits(y, 0);
            let h = (y >> 8) as u128;
            lemma_product_mul_x4(h, b);
            lemma_product_mul_x4(mul_x4(h), b);
            lemma_product_distributes(b, mul_x4(mul_x4(h)), n as u128);
        }
        let shifted = mul_by_x8(acc);
        let term = t[n as usize];
        proof {
            lemma_add_poly(shifted, term);
        }
        acc = shifted + term;
    }
    acc
}

/// 64×64 carry-less product into 128 bits `(lo, hi)`.
pub fn clmul64(a: u64, b: u64) -> (r: (u64, u64))
    ensures
        join(r.0, r.1) == carryless_product(a, b),
        r.0 == carryless_product(a, b) as u64,
        r.1 == (carryless_product(a, b) >> 64) as u64,
{
    let e = F128 { lo: b, hi: 0 };
    let t = window(e);
    let p = word_product(a, &t, Ghost(e.poly()));
    proof {
        lemma_join(b, 0, 0, 0);
        lemma_join(p.lo, p.hi, 0, 0);
        lemma_carryless_is_product(a, b);
    }
    (p.lo, p.hi)
}

/// The value of an unreduced product is the field product.
pub proof fn lemma_unreduced_product(a: F128, b: F128)
    ensures
        F256Unreduced::unreduced_product(a, b).value() == a * b,
{
    let u = F256Unreduced::unreduced_product(a, b);
    let ll = carryless_product(a.lo, b.lo);
    let lh = carryless_product(a.lo, b.hi);
    let hl = carryless_product(a.hi, b.lo);
    let hh = carryless_product(a.hi, b.hi);
    let cross = lh ^ hl;
    let (l0, l1) = (ll as u64, (ll >> 64) as u64);
    let (h0, h1) = (hh as u64, (hh >> 64) as u64);
    let (c0, c1) = (cross as u64, (cross >> 64) as u64);
    lemma_split(ll);
    lemma_split(lh);
    lemma_split(hl);
    lemma_split(hh);
    lemma_split(cross);
    lemma_join(lh as u64, (lh >> 64) as u64, hl as u64, (hl >> 64) as u64);
    lemma_join((lh as u64) ^ (hl as u64), ((lh >> 64) as u64) ^ ((hl >> 64) as u64), 0, 0);
    assert(c0 == (lh as u64) ^ (hl as u64));
    assert(c1 == ((lh >> 64) as u64) ^ ((hl >> 64) as u64));
    lemma_schoolbook(a.lo, a.hi, b.lo, b.hi);
    lemma_mul_x_pow_64(cross);
    lemma_fold(hh);
    lemma_poly_of_units();
    let x128 = F128 { lo: 0x87, hi: 0 };
    let low = F128 { lo: u.r0, hi: u.r1 };
    let high = F128 { lo: u.r2, hi: u.r3 };
    lemma_mul_poly(high, x128);
    lemma_add_poly(low, high * x128);
    lemma_mul_poly(a, b);
    // low == ll + x^64·c0, high == hh + c1
    lemma_join(l0, l1, 0, c0);
    lemma_xor(l0 as u128, 0, 0, 0);
    lemma_nibble_bits(l0, 0);
    lemma_nibble_bits(h1, 0);
    lemma_join(h0, h1, c1, 0);
    lemma_join(c1, 0, 0, 0);
    assert(low.poly() == ll ^ join(0, c0));
    assert(high.poly() == hh ^ (c1 as u128));
    crate::field::ghash_poly::lemma_product_distributes(0x87, hh, c1 as u128);
    crate::field::ghash_poly::lemma_product_commutes(0x87, hh);
    crate::field::ghash_poly::lemma_product_commutes(0x87, c1 as u128);
    crate::field::ghash_poly::lemma_product_commutes(0x87, high.poly());
    let p = product(hh, 0x87);
    let q = product(c1 as u128, 0x87);
    let s = join(0, c0);
    lemma_xor(ll ^ s, p, q, 0);
    lemma_xor(ll, s, q, p);
    lemma_xor(ll ^ s, q, p, 0);
    lemma_xor(p, q, 0, 0);
    assert(u.value().poly() == (a * b).poly());
    lemma_from_poly(u.value());
    lemma_from_poly(a * b);
}

/// Full 256-bit carry-less product `a · b`, without reduction.
pub fn ghash_mul_unreduced(a: F128, b: F128) -> (r: F256Unreduced)
    ensures
        r == F256Unreduced::unreduced_product(a, b),
        r.value() == a * b,
{
    let (ll_lo, ll_hi) = clmul64(a.lo, b.lo);
    let (lh_lo, lh_hi) = clmul64(a.lo, b.hi);
    let (hl_lo, hl_hi) = clmul64(a.hi, b.lo);
    let (hh_lo, hh_hi) = clmul64(a.hi, b.hi);
    let cr_lo: u64 = lh_lo ^ hl_lo;
    let cr_hi: u64 = lh_hi ^ hl_hi;
    proof {
        lemma_unreduced_product(a, b);
    }
    F256Unreduced { r0: ll_lo, r1: ll_hi ^ cr_lo, r2: hh_lo ^ cr_hi, r3: hh_hi }
}

/// A factor with its products by the polynomials of low degree.
pub struct Window {
    factor: F128,
    narrow: [F128; 16],
    wide: Vec<F128>,
}

impl Window {
    pub closed spec fn spec_factor(&self) -> F128 {
        self.factor
    }

    pub closed spec fn wf(&self) -> bool {
        &&& is_window(self.narrow@, self.factor.poly(), 16)
        &&& self.wide@.len() == 0 || is_window(self.wide@, self.factor.poly(), 256)
    }

    /// The window of a factor of so many products: the wider one where there are enough of
    /// them to pay for it.
    #[inline]
    pub fn new(factor: F128, products: usize) -> (r: Window)
        ensures
            r.wf(),
            r.spec_factor() == factor,
    {
        let wide = if products >= 64 {
            wide_window(factor)
        } else {
            Vec::new()
        };
        Window { factor, narrow: window(factor), wide }
    }

    /// `a` times the factor: the products by each half of `a`, that of the high half moved
    /// up by `x^64` and reduced.
    #[inline]
    pub fn times(&self, a: F128) -> (r: F128)
        requires
            self.wf(),
        ensures
            r == a * self.spec_factor(),
    {
        let ghost p = self.factor.poly();
        let (l, h) = if self.wide.len() == 256 {
            (
                wide_word_product(a.lo, &self.wide, Ghost(p)),
                wide_word_product(a.hi, &self.wide, Ghost(p)),
            )
        } else {
            (
                word_product(a.lo, &self.narrow, Ghost(p)),
                word_product(a.hi, &self.narrow, Ghost(p)),
            )
        };
        let r = ghash_reduce(l.lo, l.hi ^ h.lo, h.hi, 0);
        proof {
            let x128 = F128 { lo: 0x87, hi: 0 };
            let high = F128 { lo: h.hi, hi: 0 };
            lemma_join(a.lo, a.hi, 0, 0);
            lemma_mul_x_pow_half(a.hi, 64);
            lemma_product_distributes(p, a.lo as u128, (a.hi as u128) << 64u128);
            lemma_product_mul_x_pow(a.hi as u128, p, 64);
            lemma_mul_x_pow_64(h.poly());
            lemma_join(h.lo, h.hi, 0, 0);
            lemma_join(l.lo, l.hi, 0, h.lo);
            lemma_nibble_bits(l.lo, 0);
            lemma_join(h.hi, 0, 0, 0);
            lemma_poly_of_units();
            lemma_mul_poly(high, x128);
            lemma_add_poly(F128 { lo: l.lo, hi: l.hi ^ h.lo }, high * x128);
            lemma_mul_poly(a, self.factor);
            lemma_xor(l.poly(), join(0, h.lo), product(high.poly(), 0x87), 0);
            assert(r.poly() == (a * self.factor).poly());
            lemma_from_poly(r);
            lemma_from_poly(a * self.factor);
        }
        r
    }
}

/// The product in the field.
pub fn ghash_mul(a: F128, b: F128) -> (r: F128)
    ensures
        r == a * b,
{
    Window::new(b, 1).times(a)
}

} // verus!
