//! Multiplication of sixteen pairs of GF(2^8) values at a time.
use vstd::prelude::*;
use crate::field::gf2_8::{
    carryless_product8, clmul8_software, folded, lemma_mul_is_folded, F8,
};

verus! {

proof fn lemma_two_stage_bits(p: u16, h: u8)
    by (bit_vector)
    requires
        h == (p >> 8) as u8,
    ensures
        ((p & 0xff) as u8) ^ ((carryless_product8(
            ((carryless_product8(h, 0x8d) << 1) >> 8) as u8,
            0x1b,
        ) & 0xff) as u8) == folded(p),
{
}

/// Reduce one product: the quotient by `x^8 + x^4 + x^3 + x + 1` is the high byte of
/// `h · (x^8 + x^4 + x^3 + x)`, and its low byte times `x^4 + x^3 + x + 1` is what the
/// high byte folds to.
#[inline]
fn reduce_lane(p: u16) -> (r: u8)
    ensures
        r == folded(p),
{
    let h: u8 = (p >> 8) as u8;
    proof {
        lemma_two_stage_bits(p, h);
    }
    let stage: u16 = clmul8_software(h, 0x8d) << 1;
    let low: u16 = clmul8_software((stage >> 8) as u8, 0x1b);
    ((p & 0xff) as u8) ^ ((low & 0xff) as u8)
}

/// Reduce 16 polynomial products, eight in `c0` and eight in `c1`, modulo
/// `x^8 + x^4 + x^3 + x + 1`, returning 16 reduced GF(2^8) values.
///
/// Two-stage reduction:
///   Stage 1: high byte · 0x8d then ·2 (0x8d is `(x^8+x^4+x^3+x)/x`)
///   Stage 2: high byte of stage 1 · 0x1b; take the low byte only.
pub fn gf8_reduce_vec16(c0: [u16; 8], c1: [u16; 8]) -> (r: [u8; 16])
    ensures
        forall|i: int| 0 <= i < 8 ==> #[trigger] r@[i] == folded(c0@[i]),
        forall|i: int| 8 <= i < 16 ==> #[trigger] r@[i] == folded(c1@[i - 8]),
{
    let mut r: [u8; 16] = [0;16];
    let mut i: usize = 0;
    while i < 8
        invariant
            i <= 8,
            forall|q: int| 0 <= q < i ==> #[trigger] r@[q] == folded(c0@[q]),
            forall|q: int| 8 <= q < 8 + i ==> #[trigger] r@[q] == folded(c1@[q - 8]),
        decreases 8 - i,
    {
        r[i] = reduce_lane(c0[i]);
        r[8 + i] = reduce_lane(c1[i]);
        i = i + 1;
    }
    r
}

/// Element-wise multiply 16 pairs of GF(2^8) values.
pub fn gf8_mul_vec16(a: [u8; 16], b: [u8; 16]) -> (r: [u8; 16])
    ensures
        forall|i: int| 0 <= i < 16 ==> F8(#[trigger] r@[i]) == F8(a@[i]) * F8(b@[i]),
{
    let mut c0: [u16; 8] = [0;8];
    let mut c1: [u16; 8] = [0;8];
    let mut i: usize = 0;
    while i < 8
        invariant
            i <= 8,
            forall|q: int| 0 <= q < i ==> #[trigger] c0@[q] == carryless_product8(a@[q], b@[q]),
            forall|q: int|
                0 <= q < i ==> #[trigger] c1@[q] == carryless_product8(a@[8 + q], b@[8 + q]),
        decreases 8 - i,
    {
        c0[i] = clmul8_software(a[i], b[i]);
        c1[i] = clmul8_software(a[8 + i], b[8 + i]);
        i = i + 1;
    }
    let r = gf8_reduce_vec16(c0, c1);
    proof {
        assert forall|i: int| 0 <= i < 16 implies F8(#[trigger] r@[i]) == F8(a@[i]) * F8(
            b@[i],
        ) by {
            lemma_mul_is_folded(F8(a@[i]), F8(b@[i]));
            if i < 8 {
                assert(c0@[i] == carryless_product8(a@[i], b@[i]));
            } else {
                assert(c1@[i - 8] == carryless_product8(a@[i], b@[i]));
            }
        }
    }
    r
}

} // verus!
