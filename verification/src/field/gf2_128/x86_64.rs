//! Multiplication by the schedule of a vector unit with a carry-less multiplier:
//! Karatsuba into three parts, then two folds.
use vstd::prelude::*;
use crate::field::gf2_128::aarch64::{fold_step, lemma_karatsuba, lemma_two_folds};
use crate::field::gf2_128::software::{clmul64, lemma_unreduced_product};
use crate::field::gf2_128::{F128, F256Unreduced};
use crate::field::ghash_poly::{carryless_product, join, lemma_join, mul_x_pow};

verus! {

/// Karatsuba 128×128 carry-less multiply into the three-part form
/// `t0 + t1·x^64 + t2·x^128`, by three products.
pub fn clmul_3part(a: F128, b: F128) -> (r: ((u64, u64), (u64, u64), (u64, u64)))
    ensures
        join(r.0.0, r.0.1) == carryless_product(a.lo, b.lo),
        join(r.1.0, r.1.1) == carryless_product(a.lo, b.hi) ^ carryless_product(a.hi, b.lo),
        join(r.2.0, r.2.1) == carryless_product(a.hi, b.hi),
{
    let t0 = clmul64(a.lo, b.lo);
    let t2 = clmul64(a.hi, b.hi);
    let tm = clmul64(a.lo ^ a.hi, b.lo ^ b.hi);
    proof {
        lemma_karatsuba(a.lo, a.hi, b.lo, b.hi);
        lemma_join(tm.0, tm.1, t0.0, t0.1);
        lemma_join(tm.0 ^ t0.0, tm.1 ^ t0.1, t2.0, t2.1);
    }
    let t1: (u64, u64) = (tm.0 ^ t0.0 ^ t2.0, tm.1 ^ t0.1 ^ t2.1);
    (t0, t1, t2)
}

/// Two-stage reduction of a product in three parts: fold `t2` into `t1`, then `t1`
/// into `t0`.
pub fn reduce_3part(t0: (u64, u64), t1: (u64, u64), t2: (u64, u64)) -> (r: F128)
    ensures
        join(r.lo, r.hi) == join(t0.0, t0.1) ^ mul_x_pow(
            join(t1.0, t1.1) ^ mul_x_pow(join(t2.0, t2.1), 64),
            64,
        ),
{
    let t = fold_step(t0, fold_step(t1, t2));
    F128 { lo: t.0, hi: t.1 }
}

/// Field multiplication: three products and two folds.
pub fn ghash_mul_binius(a: F128, b: F128) -> (r: F128)
    ensures
        r == a * b,
{
    let (t0, t1, t2) = clmul_3part(a, b);
    let r = reduce_3part(t0, t1, t2);
    proof {
        lemma_two_folds(a, b, r);
    }
    r
}

/// Full 256-bit carry-less product, no reduction, by Karatsuba.
pub fn ghash_mul_unreduced_x86(a: F128, b: F128) -> (r: F256Unreduced)
    ensures
        r == F256Unreduced::unreduced_product(a, b),
        r.value() == a * b,
{
    let (t0, t1, t2) = clmul_3part(a, b);
    let r = F256Unreduced { r0: t0.0, r1: t0.1 ^ t1.0, r2: t2.0 ^ t1.1, r3: t2.1 };
    proof {
        lemma_unreduced_product(a, b);
        lemma_join(t0.0, t0.1, 0, 0);
        lemma_join(t1.0, t1.1, 0, 0);
        lemma_join(t2.0, t2.1, 0, 0);
        crate::field::gf2_128::aarch64::lemma_xor_words(
            carryless_product(a.lo, b.hi),
            carryless_product(a.hi, b.lo),
        );
    }
    r
}

} // verus!
