//! Multiplication by the schedules of a core with a 64×64 carry-less multiplier:
//! how many products a multiplication takes and how they are reduced.
use vstd::prelude::*;
use crate::field::gf2_128::software::{clmul64, ghash_mul_unreduced, lemma_unreduced_product};
use crate::field::gf2_128::{
    ghash_reduce, lemma_add_poly, lemma_from_poly, lemma_mul_poly, lemma_poly_of_units, F128,
    F256Unreduced,
};
use crate::field::ghash_poly::{
    carryless_product, fold_high, join, lemma_carryless_is_product, lemma_fold_high, lemma_join,
    lemma_mul_x_pow_64, lemma_mul_x_pow_add, lemma_mul_x_pow_half, lemma_mul_x_pow_linear,
    lemma_product_commutes, lemma_product_distributes, lemma_product_mul_x_pow, lemma_schoolbook,
    lemma_split, lemma_xor, mul_x_pow, product,
};

verus! {

/// The words of an exclusive or.
pub proof fn lemma_xor_words(x: u128, y: u128)
    ensures
        (x ^ y) as u64 == (x as u64) ^ (y as u64),
        ((x ^ y) >> 64) as u64 == ((x >> 64) as u64) ^ ((y >> 64) as u64),
{
    lemma_split(x);
    lemma_split(y);
    let (xl, xh, yl, yh) = (x as u64, (x >> 64) as u64, y as u64, (y >> 64) as u64);
    lemma_join(xl, xh, yl, yh);
    lemma_join(xl ^ yl, xh ^ yh, 0, 0);
}

/// Karatsuba: the cross terms from the product of the sums.
pub proof fn lemma_karatsuba(a0: u64, a1: u64, b0: u64, b1: u64)
    ensures
        (carryless_product(a0 ^ a1, b0 ^ b1) ^ carryless_product(a0, b0)) ^ carryless_product(
            a1,
            b1,
        ) == carryless_product(a0, b1) ^ carryless_product(a1, b0),
{
    lemma_carryless_is_product(a0 ^ a1, b0 ^ b1);
    lemma_carryless_is_product(a0, b0);
    lemma_carryless_is_product(a0, b1);
    lemma_carryless_is_product(a1, b0);
    lemma_carryless_is_product(a1, b1);
    let (p, q, r, s) = (a0 as u128, a1 as u128, b0 as u128, b1 as u128);
    assert((a0 ^ a1) as u128 == p ^ q);
    assert((b0 ^ b1) as u128 == r ^ s);
    lemma_product_distributes(r ^ s, p, q);
    lemma_product_distributes(p, r, s);
    lemma_product_distributes(q, r, s);
    let (ll, lh, hl, hh) = (product(p, r), product(p, s), product(q, r), product(q, s));
    // (((ll + lh) + (hl + hh)) + ll) + hh = lh + hl
    lemma_xor(ll, lh, hl, hh);
    lemma_xor(ll ^ lh, hl ^ hh, ll, hh);
    lemma_xor(ll, lh, ll, 0);
    lemma_xor(lh ^ hl, hh, hh, hh);
    lemma_xor(lh, ll, ll, ll);
    lemma_xor(lh, hl ^ hh, ll, 0);
    lemma_xor(ll, lh, hl ^ hh, 0);
    lemma_xor(ll, lh ^ (hl ^ hh), ll, 0);
    lemma_xor(lh ^ (hl ^ hh), ll, ll, 0);
    lemma_xor(lh, hl, hh, 0);
}

/// Schoolbook, four independent products, then the scalar reduction.
pub fn ghash_mul_schoolbook(a: F128, b: F128) -> (r: F128)
    ensures
        r == a * b,
{
    let u = ghash_mul_unreduced(a, b);
    ghash_reduce(u.r0, u.r1, u.r2, u.r3)
}

/// Karatsuba, three products: the middle term depends on the sums of the halves.
pub fn ghash_mul_karatsuba(a: F128, b: F128) -> (r: F128)
    ensures
        r == a * b,
{
    let (p0_lo, p0_hi) = clmul64(a.lo, b.lo);
    let (p1_lo, p1_hi) = clmul64(a.hi, b.hi);
    let (pm_lo, pm_hi) = clmul64(a.lo ^ a.hi, b.lo ^ b.hi);
    let cross_lo: u64 = pm_lo ^ p0_lo ^ p1_lo;
    let cross_hi: u64 = pm_hi ^ p0_hi ^ p1_hi;
    proof {
        lemma_cross_words(a, b);
        lemma_unreduced_product(a, b);
    }
    ghash_reduce(p0_lo, p0_hi ^ cross_lo, p1_lo ^ cross_hi, p1_hi)
}

/// The words of Karatsuba's cross terms are those of the schoolbook.
pub proof fn lemma_cross_words(a: F128, b: F128)
    ensures
        ({
            let pm = carryless_product(a.lo ^ a.hi, b.lo ^ b.hi);
            let (p0, p1) = (carryless_product(a.lo, b.lo), carryless_product(a.hi, b.hi));
            let (lh, hl) = (carryless_product(a.lo, b.hi), carryless_product(a.hi, b.lo));
            &&& ((pm as u64) ^ (p0 as u64)) ^ (p1 as u64) == (lh as u64) ^ (hl as u64)
            &&& (((pm >> 64) as u64) ^ ((p0 >> 64) as u64)) ^ ((p1 >> 64) as u64) == ((lh
                >> 64) as u64) ^ ((hl >> 64) as u64)
        }),
{
    let pm = carryless_product(a.lo ^ a.hi, b.lo ^ b.hi);
    let (p0, p1) = (carryless_product(a.lo, b.lo), carryless_product(a.hi, b.hi));
    let (lh, hl) = (carryless_product(a.lo, b.hi), carryless_product(a.hi, b.lo));
    lemma_karatsuba(a.lo, a.hi, b.lo, b.hi);
    lemma_xor_words(pm, p0);
    lemma_xor_words(pm ^ p0, p1);
    lemma_xor_words(lh, hl);
}

proof fn lemma_barrett_bits(h: u64, o: u64)
    by (bit_vector)
    ensures
        ((fold_high(h as u128) >> 64) as u64) < 128,
        o < 128 ==> fold_high(o as u128) == (o ^ (o << 1) ^ (o << 2) ^ (o << 7)) as u128,
{
}

/// Karatsuba, three products, and a Barrett reduction, two more:
/// `r_hi = hi_hi · 0x87` depends only on the product of the high halves, so it can
/// issue in parallel with the cross terms.
pub fn ghash_mul_karatsuba_barrett(a: F128, b: F128) -> (r: F128)
    ensures
        r == a * b,
{
    let (d0_lo, d0_hi) = clmul64(a.lo, b.lo);
    let (d2_lo, d2_hi) = clmul64(a.hi, b.hi);
    let (dm_lo, dm_hi) = clmul64(a.lo ^ a.hi, b.lo ^ b.hi);
    let d1_lo: u64 = dm_lo ^ d0_lo ^ d2_lo;
    let d1_hi: u64 = dm_hi ^ d0_hi ^ d2_hi;
    let lo_lo: u64 = d0_lo;
    let lo_hi: u64 = d0_hi ^ d1_lo;
    let hi_lo: u64 = d2_lo ^ d1_hi;
    let hi_hi: u64 = d2_hi;
    let (r_hi_lo, r_hi_hi) = clmul64(hi_hi, 0x87);
    let (r_lo_lo, r_lo_hi) = clmul64(hi_lo, 0x87);
    // hi_hi · 0x87 has degree ≤ 70, so r_hi_hi has at most 7 bits.
    let ov: u64 = r_hi_hi;
    let corr: u64 = ov ^ (ov << 1) ^ (ov << 2) ^ (ov << 7);
    let r = F128 { lo: lo_lo ^ r_lo_lo ^ corr, hi: lo_hi ^ r_lo_hi ^ r_hi_lo };
    proof {
        lemma_cross_words(a, b);
        lemma_unreduced_product(a, b);
        let u = F256Unreduced::unreduced_product(a, b);
        assert(u == F256Unreduced { r0: lo_lo, r1: lo_hi, r2: hi_lo, r3: hi_hi });
        let low = F128 { lo: lo_lo, hi: lo_hi };
        let high = F128 { lo: hi_lo, hi: hi_hi };
        let x128 = F128 { lo: 0x87, hi: 0 };
        lemma_poly_of_units();
        lemma_mul_poly(high, x128);
        lemma_add_poly(low, high * x128);
        // high · 0x87 in halves
        let (hl, hh) = (hi_lo as u128, hi_hi as u128);
        lemma_join(hi_lo, hi_hi, 0, 0);
        lemma_mul_x_pow_half(hi_hi, 64);
        lemma_product_distributes(0x87, hl, mul_x_pow(hh, 64));
        lemma_product_commutes(0x87, hl);
        lemma_product_commutes(0x87, mul_x_pow(hh, 64));
        lemma_product_commutes(0x87, high.poly());
        lemma_product_mul_x_pow(0x87, hh, 64);
        lemma_product_commutes(0x87, hh);
        lemma_carryless_is_product(hi_lo, 0x87);
        lemma_carryless_is_product(hi_hi, 0x87);
        let c = product(hh, 0x87);
        lemma_mul_x_pow_64(c);
        lemma_fold_high(hh);
        lemma_fold_high(ov as u128);
        lemma_barrett_bits(hi_hi, ov);
        // the words of the sum
        let (p, q, s, t) = (
            join(lo_lo, lo_hi),
            join(r_lo_lo, r_lo_hi),
            join(0, r_hi_lo),
            join(corr, 0),
        );
        lemma_join(corr, 0, 0, 0);
        lemma_join(lo_lo, lo_hi, r_lo_lo, r_lo_hi);
        lemma_join(lo_lo ^ r_lo_lo, lo_hi ^ r_lo_hi, corr, r_hi_lo);
        lemma_join(0, r_hi_lo, corr, 0);
        lemma_xor(corr as u128, 0, 0, 0);
        assert(0u64 ^ corr == corr && r_hi_lo ^ 0u64 == r_hi_lo) by {
            lemma_xor(corr as u128, 0, 0, 0);
            lemma_xor(r_hi_lo as u128, 0, 0, 0);
            assert((0u64 ^ corr) as u128 == 0u128 ^ (corr as u128));
            assert((r_hi_lo ^ 0u64) as u128 == (r_hi_lo as u128) ^ 0u128);
        }
        lemma_xor(p, q, s ^ t, 0);
        lemma_split(c);
        assert(r.poly() == (p ^ q) ^ (s ^ t));
        assert((a * b).poly() == p ^ (q ^ (s ^ t)));
        lemma_from_poly(r);
        lemma_from_poly(a * b);
    }
    r
}

/// `t0 + x^64 · t1` in the field: the low word of `t1` moves up, the high one is
/// folded back.
pub fn fold_step(t0: (u64, u64), t1: (u64, u64)) -> (r: (u64, u64))
    ensures
        join(r.0, r.1) == join(t0.0, t0.1) ^ mul_x_pow(join(t1.0, t1.1), 64),
{
    let (red_lo, red_hi) = clmul64(t1.1, 0x87);
    proof {
        let c = join(t1.0, t1.1);
        lemma_mul_x_pow_64(c);
        lemma_join(t1.0, t1.1, 0, 0);
        lemma_carryless_is_product(t1.1, 0x87);
        lemma_join(t0.0, t0.1, 0, t1.0);
        lemma_join(t0.0 ^ 0, t0.1 ^ t1.0, red_lo, red_hi);
        lemma_xor(join(t0.0, t0.1), join(0, t1.0), join(red_lo, red_hi), 0);
        lemma_xor(t0.0 as u128, 0, 0, 0);
        assert((t0.0 ^ 0u64) as u128 == (t0.0 as u128) ^ 0u128);
    }
    (t0.0 ^ red_lo, t0.1 ^ t1.0 ^ red_hi)
}

/// The two folds of a product in three parts give the field product.
pub proof fn lemma_two_folds(a: F128, b: F128, r: F128)
    requires
        ({
            let ll = carryless_product(a.lo, b.lo);
            let cross = carryless_product(a.lo, b.hi) ^ carryless_product(a.hi, b.lo);
            let hh = carryless_product(a.hi, b.hi);
            join(r.lo, r.hi) == ll ^ mul_x_pow(cross ^ mul_x_pow(hh, 64), 64)
        }),
    ensures
        r == a * b,
{
    let ll = carryless_product(a.lo, b.lo);
    let cross = carryless_product(a.lo, b.hi) ^ carryless_product(a.hi, b.lo);
    let hh = carryless_product(a.hi, b.hi);
    lemma_schoolbook(a.lo, a.hi, b.lo, b.hi);
    lemma_mul_x_pow_linear(cross, mul_x_pow(hh, 64), 64);
    lemma_mul_x_pow_add(hh, 64, 64);
    lemma_xor(ll, mul_x_pow(cross, 64), mul_x_pow(hh, 128), 0);
    lemma_mul_poly(a, b);
    assert(r.poly() == (a * b).poly());
    lemma_from_poly(r);
    lemma_from_poly(a * b);
}

/// Schoolbook and a reduction in two stages: each stage keeps the intermediate at
/// 128 bits, so no overflow term is left over.
pub fn ghash_mul_binius(a: F128, b: F128) -> (r: F128)
    ensures
        r == a * b,
{
    let t0 = clmul64(a.lo, b.lo);
    let t1a = clmul64(a.lo, b.hi);
    let t1b = clmul64(a.hi, b.lo);
    let t2 = clmul64(a.hi, b.hi);
    proof {
        lemma_join(t1a.0, t1a.1, t1b.0, t1b.1);
    }
    // First reduce: t1 = t1 + x^64 · t2 (mod p).
    let t1 = fold_step((t1a.0 ^ t1b.0, t1a.1 ^ t1b.1), t2);
    // Second reduce: t0 = t0 + x^64 · t1 (mod p).
    let t = fold_step(t0, t1);
    let r = F128 { lo: t.0, hi: t.1 };
    proof {
        lemma_two_folds(a, b, r);
    }
    r
}

/// Two products side by side: eight independent carry-less products, then one
/// reduction of both lanes.
pub fn ghash_mul_vec2_neon(a: [F128; 2], b: [F128; 2]) -> (r: [F128; 2])
    ensures
        r@ == seq![a@[0] * b@[0], a@[1] * b@[1]],
{
    let u0 = ghash_mul_unreduced(a[0], b[0]);
    let u1 = ghash_mul_unreduced(a[1], b[1]);
    let r: [F128; 2] = [
        ghash_reduce(u0.r0, u0.r1, u0.r2, u0.r3),
        ghash_reduce(u1.r0, u1.r1, u1.r2, u1.r3),
    ];
    assert(r@ =~= seq![a@[0] * b@[0], a@[1] * b@[1]]);
    r
}

/// Full 256-bit carry-less product `a · b`, no mod-p reduction, by the schoolbook.
pub fn ghash_mul_unreduced_neon(a: F128, b: F128) -> (r: F256Unreduced)
    ensures
        r == F256Unreduced::unreduced_product(a, b),
        r.value() == a * b,
{
    ghash_mul_unreduced(a, b)
}

} // verus!
