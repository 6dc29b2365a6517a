//! Ring-switching: from an evaluation of the bit witness to an inner product
//! of the packed witness.
//!
//! A claim on the bit witness at `(z_skip, x_outer)` speaks of 128 bits per
//! packed element. The prover sends, for each of the 128 coordinates, the
//! value at `x_outer[1..]` of the multilinear polynomial of that coordinate.
//! The verifier recombines them to the claim, then transposes the 128×128 bit
//! matrix that they form and combines its columns by the weights of a random
//! point. What comes out is the inner product of the packed witness with a
//! table that anyone can compute, which BaseFold proves.
//!
//! See [DP24](https://eprint.iacr.org/2024/504).
use vstd::arithmetic::power2::{lemma2_to64, pow2};
use vstd::prelude::*;
use vstd::slice::slice_subrange;
use crate::algebra::{lemma_sum_ext, lemma_sum_split, sum};
use crate::bits::{bit64, lemma_bit64_ops};
use crate::challenger::Challenger;
use crate::field::gf2_128::{lemma_add_zero, lemma_mul_units};
use crate::field::F128;
use crate::index::index_bit;
use crate::lincheck::fold::{build_sum_table, subset_sum};
use crate::pcs::pack::{element_bit, word_bit};
use crate::r1cs::laws::bit_value;
use crate::zerocheck::multilinear::{
    build_eq_table, eq_table, lagrange_table, lagrange_weights_naive,
};
use crate::zerocheck::PaddingSpec;

pub mod batch;
pub mod laws;
pub mod sparse;
pub mod tensor;

pub use sparse::{build_eq_sparse, SparseEqTensor};
pub use tensor::eval_rs_eq;

verus! {

/// Ring-switching proof: the 128 partial evaluations.
#[derive(Clone, Debug, PartialEq, Eq)]
pub struct RingSwitchProof {
    pub s_hat_v: Vec<F128>,
}

/// What the prover hands on: the table whose inner product with the packed
/// witness is claimed.
#[derive(Clone, Debug)]
pub struct RingSwitchOutput {
    pub rs_eq_ind: Vec<F128>,
    pub sumcheck_claim: F128,
}

/// What the verifier hands on: the claim, and the weights that determine the
/// table.
#[derive(Clone, Debug)]
pub struct RingSwitchVerifierOutput {
    pub sumcheck_claim: F128,
    pub eq_r_dprime: Vec<F128>,
}

#[derive(Clone, Copy, Debug, PartialEq, Eq)]
pub enum VerifyError {
    /// There are not 128 partial evaluations.
    InvalidProofShape,
    /// The partial evaluations do not recombine to the claim.
    ClaimMismatch,
}

// ---------------------------------------------------------------------------
// The reduction
// ---------------------------------------------------------------------------

/// `flock-ring-switch-v0`.
pub open spec fn ring_switch_label() -> Seq<u8> {
    seq![
        0x66u8, 0x6c, 0x6f, 0x63, 0x6b, 0x2d, 0x72, 0x69, 0x6e, 0x67, 0x2d, 0x73, 0x77, 0x69, 0x74,
        0x63, 0x68, 0x2d, 0x76, 0x30,
    ]
}

/// `w[u]` where coordinate `u` of `x` is set.
pub open spec fn bit_term(x: F128, w: Seq<F128>) -> spec_fn(int) -> F128 {
    |u: int| w[u] * bit_value(element_bit(x, u))
}

/// `Σ_u w[u]` over the coordinates `u` of `x` that are set.
pub open spec fn bit_combination(x: F128, w: Seq<F128>) -> F128 {
    sum(128, bit_term(x, w))
}

/// `e[j]` where coordinate `v` of `z[j]` is set.
pub open spec fn row_term(z: Seq<F128>, e: Seq<F128>, v: int) -> spec_fn(int) -> F128 {
    |j: int| e[j] * bit_value(element_bit(z[j], v))
}

/// `Σ_j e[j]` over the elements of `z` whose coordinate `v` is set.
pub open spec fn partial_evaluation(z: Seq<F128>, e: Seq<F128>, v: int) -> F128 {
    sum(z.len(), row_term(z, e, v))
}

/// The partial evaluations of all coordinates.
pub open spec fn partial_evaluations(z: Seq<F128>, e: Seq<F128>) -> Seq<F128> {
    Seq::new(128, |v: int| partial_evaluation(z, e, v))
}

/// The element whose only coordinate is `v`.
pub open spec fn monomial(v: int) -> F128 {
    if v < 64 {
        F128 { lo: 1u64 << (v as u64), hi: 0 }
    } else {
        F128 { lo: 0, hi: 1u64 << ((v - 64) as u64) }
    }
}

/// Coordinate `u` of `s[v]`, at coordinate `v`.
pub open spec fn column_term(s: Seq<F128>, u: int) -> spec_fn(int) -> F128 {
    |v: int| monomial(v) * bit_value(element_bit(s[v], u))
}

/// Column `u` of the bit matrix with rows `s`.
pub open spec fn column(s: Seq<F128>, u: int) -> F128 {
    sum(128, column_term(s, u))
}

pub open spec fn switched_term(s: Seq<F128>, w: Seq<F128>) -> spec_fn(int) -> F128 {
    |u: int| w[u] * column(s, u)
}

/// The columns of the bit matrix with rows `s`, combined.
pub open spec fn switched_claim(s: Seq<F128>, w: Seq<F128>) -> F128 {
    sum(128, switched_term(s, w))
}

/// The table whose inner product with the packed witness is the claim.
pub open spec fn switched_table(e: Seq<F128>, w: Seq<F128>) -> Seq<F128> {
    Seq::new(e.len(), |j: int| bit_combination(e[j], w))
}

pub open spec fn skip_term(s: Seq<F128>, z_skip: F128, x0: F128) -> spec_fn(int) -> F128 {
    |i: int|
        lagrange_table(6, z_skip)[i] * ((F128::one() + x0) * s[i] + x0 * s[i + 64])
}

/// The claim on the bit witness that the partial evaluations recombine to.
pub open spec fn recombined(s: Seq<F128>, z_skip: F128, x0: F128) -> F128 {
    sum(64, skip_term(s, z_skip, x0))
}

/// The point that the columns are combined at.
pub open spec fn switch_point<Ch: Challenger>(s: Ch::State, message: Seq<F128>) -> Seq<F128> {
    Ch::challenge_vec(Ch::after_f128_slice(Ch::after_label(s, ring_switch_label()), message), 7)
}

/// The state after the ring-switching of one claim.
pub open spec fn after_switch<Ch: Challenger>(s: Ch::State, message: Seq<F128>) -> Ch::State {
    Ch::after_sample_vec(
        Ch::after_f128_slice(Ch::after_label(s, ring_switch_label()), message),
        7,
    )
}

/// The coordinates of the witness beyond the packed ones.
pub open spec fn tail(x_outer: Seq<F128>) -> Seq<F128> {
    x_outer.subrange(1, x_outer.len() as int)
}

/// The witness without the elements that the padding leaves out.
pub open spec fn kept(z: Seq<F128>, padding: PaddingSpec) -> Seq<F128> {
    Seq::new(
        z.len(),
        |j: int|
            if padding.live(j) {
                z[j]
            } else {
                F128::zero()
            },
    )
}

// ---------------------------------------------------------------------------
// Bits of elements
// ---------------------------------------------------------------------------

/// Coordinate `i` of an element.
#[inline]
pub(crate) fn coordinate(e: F128, i: usize) -> (b: bool)
    requires
        i < 128,
    ensures
        b == element_bit(e, i as int),
{
    if i < 64 {
        word_bit(e.lo, i)
    } else {
        word_bit(e.hi, i - 64)
    }
}

/// A term that counts if the bit is set.
pub proof fn lemma_bit_term(w: F128, b: bool)
    ensures
        w * bit_value(b) == (if b {
            w
        } else {
            F128::zero()
        }),
{
    lemma_mul_units(w);
}

// ---------------------------------------------------------------------------
// Prover
// ---------------------------------------------------------------------------

/// The partial evaluations of all 128 coordinates: bit-rows of the witness
/// folded against the weights. Elements that the padding leaves out are
/// skipped.
pub(crate) fn fold_1b_rows(z: &[F128], e: &[F128], padding: &PaddingSpec) -> (s_hat_v: Vec<F128>)
    requires
        z@.len() == e@.len(),
        padding.wf(),
    ensures
        s_hat_v@ == partial_evaluations(kept(z@, *padding), e@),
{
    let n: usize = z.len();
    let ghost k = kept(z@, *padding);
    let mut out: Vec<F128> = Vec::with_capacity(128);
    let mut v: usize = 0;
    while v < 128
        invariant
            v <= 128,
            n == z@.len(),
            n == e@.len(),
            padding.wf(),
            k == kept(z@, *padding),
            out@.len() == v,
            forall|q: int| 0 <= q < v ==> #[trigger] out@[q] == partial_evaluation(k, e@, q),
        decreases 128 - v,
    {
        let ghost f = row_term(k, e@, v as int);
        let mut acc = F128::zero();
        let mut j: usize = 0;
        while j < n
            invariant
                j <= n,
                v < 128,
                n == z@.len(),
                n == e@.len(),
                padding.wf(),
                k == kept(z@, *padding),
                f == row_term(k, e@, v as int),
                acc == sum(j as nat, f),
            decreases n - j,
        {
            proof {
                assert(sum((j + 1) as nat, f) == sum(j as nat, f) + f(j as int));
                lemma_bit_term(e@[j as int], element_bit(k[j as int], v as int));
                lemma_add_zero(acc);
                lemma_zero_bits(v as int);
            }
            if padding.is_live(j) && coordinate(z[j], v) {
                acc = acc + e[j];
            }
            j = j + 1;
        }
        out.push(acc);
        v = v + 1;
    }
    assert(out@ =~= partial_evaluations(k, e@));
    out
}

/// The coordinates of zero.
pub proof fn lemma_zero_bits(v: int)
    requires
        0 <= v < 128,
    ensures
        !element_bit(F128::zero(), v),
{
    if v < 64 {
        lemma_bit64_ops(0, 0, v);
    } else {
        lemma_bit64_ops(0, 0, v - 64);
    }
}

/// The columns of the bit matrix with rows `s_hat_v`, combined by the weights.
pub(crate) fn combine_columns(s_hat_v: &[F128], weights: &[F128]) -> (claim: F128)
    requires
        s_hat_v@.len() == 128,
        weights@.len() == 128,
    ensures
        claim == switched_claim(s_hat_v@, weights@),
{
    let ghost g = switched_term(s_hat_v@, weights@);
    let mut claim = F128::zero();
    let mut u: usize = 0;
    while u < 128
        invariant
            u <= 128,
            s_hat_v@.len() == 128,
            weights@.len() == 128,
            g == switched_term(s_hat_v@, weights@),
            claim == sum(u as nat, g),
        decreases 128 - u,
    {
        let ghost f = column_term(s_hat_v@, u as int);
        let mut col = F128::zero();
        let mut v: usize = 0;
        while v < 128
            invariant
                v <= 128,
                u < 128,
                s_hat_v@.len() == 128,
                f == column_term(s_hat_v@, u as int),
                col == sum(v as nat, f),
            decreases 128 - v,
        {
            let m = if v < 64 {
                F128 { lo: 1u64 << (v as u64), hi: 0 }
            } else {
                F128 { lo: 0, hi: 1u64 << ((v - 64) as u64) }
            };
            proof {
                assert(m == monomial(v as int));
                assert(sum((v + 1) as nat, f) == sum(v as nat, f) + f(v as int));
                lemma_bit_term(m, element_bit(s_hat_v@[v as int], u as int));
                lemma_add_zero(col);
            }
            if coordinate(s_hat_v[v], u) {
                col = col + m;
            }
            v = v + 1;
        }
        proof {
            assert(sum((u + 1) as nat, g) == sum(u as nat, g) + g(u as int));
        }
        claim = claim + weights[u] * col;
        u = u + 1;
    }
    claim
}

/// Byte `k` of an element.
pub open spec fn element_byte(x: F128, k: int) -> int {
    if k < 8 {
        ((x.lo >> ((8 * k) as u64)) & 0xff) as int
    } else {
        ((x.hi >> ((8 * (k - 8)) as u64)) & 0xff) as int
    }
}

pub open spec fn slot_term(x: F128, table: Seq<F128>) -> spec_fn(int) -> F128 {
    |k: int| table[256 * k + element_byte(x, k)]
}

/// `Σ_k table[k][byte k of x]`.
pub open spec fn slot_value(x: F128, table: Seq<F128>) -> F128 {
    sum(16, slot_term(x, table))
}

/// The byte tables of the weights: entry `b` of table `k` is the sum of the
/// weights `8k + r` over the set bits `r` of `b`.
pub open spec fn is_byte_table(table: Seq<F128>, w: Seq<F128>) -> bool {
    &&& table.len() == 4096
    &&& forall|k: int, b: int|
        0 <= k < 16 && 0 <= b < 256 ==> #[trigger] table[256 * k + b] == subset_sum(
            w.subrange(8 * k, 8 * k + 8),
            b as nat,
            8,
        )
}

proof fn lemma_byte_bits(x: u64, k: u64, r: u64)
    by (bit_vector)
    requires
        k < 8,
        r < 8,
    ensures
        (((x >> ((8 * k) as u64)) & 0xff) >> r) & 1 == (x >> ((8 * k + r) as u64)) & 1,
        ((x >> ((8 * k) as u64)) & 0xff) < 256,
{
}

/// A bit of a word, as a bit of a number.
pub proof fn lemma_bit64_is_index_bit(x: u64, i: int)
    requires
        0 <= i < 64,
    ensures
        bit64(x, i) == index_bit(x as nat, i as nat),
{
    vstd::bits::lemma_u64_shr_is_div(x, i as u64);
    let q: u64 = x >> (i as u64);
    vstd::bits::lemma_u64_low_bits_mask_is_mod(q, 1);
    vstd::bits::lemma_low_bits_mask_values();
    lemma2_to64();
}

/// The bits of a byte of an element.
proof fn lemma_element_byte(x: F128, k: int, r: int)
    requires
        0 <= k < 16,
        0 <= r < 8,
    ensures
        0 <= element_byte(x, k) < 256,
        index_bit(element_byte(x, k) as nat, r as nat) == element_bit(x, 8 * k + r),
{
    let (w, j) = if k < 8 {
        (x.lo, k)
    } else {
        (x.hi, k - 8)
    };
    lemma_byte_bits(w, j as u64, r as u64);
    let b: u64 = (w >> ((8 * j) as u64)) & 0xff;
    lemma_bit64_is_index_bit(b, r);
}

/// The byte tables give the combination of the weights.
pub proof fn lemma_slot_value(x: F128, table: Seq<F128>, w: Seq<F128>)
    requires
        w.len() == 128,
        is_byte_table(table, w),
    ensures
        slot_value(x, table) == bit_combination(x, w),
{
    lemma_slot_partial(x, table, w, 16);
}

proof fn lemma_slot_partial(x: F128, table: Seq<F128>, w: Seq<F128>, n: nat)
    requires
        n <= 16,
        w.len() == 128,
        is_byte_table(table, w),
    ensures
        sum(n, slot_term(x, table)) == sum(8 * n, bit_term(x, w)),
    decreases n,
{
    if n > 0 {
        let k = n - 1;
        lemma_slot_partial(x, table, w, k as nat);
        let f = bit_term(x, w);
        lemma_sum_split((8 * k) as nat, 8, f);
        let b = element_byte(x, k);
        lemma_element_byte(x, k, 0);
        let eq8 = w.subrange(8 * k, 8 * k + 8);
        let g = |r: int| eq8[r] * bit_value(index_bit(b as nat, r as nat));
        let h = |i: int| f(8 * k + i);
        assert forall|r: int| 0 <= r < 8 implies #[trigger] g(r) == h(r) by {
            lemma_element_byte(x, k, r);
        }
        lemma_sum_ext(8, g, h);
        lemma_sum_ext(8, h, |i: int| f((8 * k) as nat + i));
        assert(table[256 * k + b] == subset_sum(eq8, b as nat, 8));
    }
}

/// The byte tables of the weights.
pub(crate) fn build_byte_table(weights: &[F128]) -> (table: Vec<F128>)
    requires
        weights@.len() == 128,
    ensures
        is_byte_table(table@, weights@),
{
    let mut table: Vec<F128> = Vec::new();
    table.resize(4096, F128::zero());
    let mut k: usize = 0;
    while k < 16
        invariant
            k <= 16,
            weights@.len() == 128,
            table@.len() == 4096,
            forall|q: int, b: int|
                0 <= q < k && 0 <= b < 256 ==> #[trigger] table@[256 * q + b] == subset_sum(
                    weights@.subrange(8 * q, 8 * q + 8),
                    b as nat,
                    8,
                ),
        decreases 16 - k,
    {
        let ghost before = table@;
        build_sum_table(weights, 8 * k, &mut table, 256 * k);
        proof {
            assert forall|q: int, b: int|
                0 <= q < k + 1 && 0 <= b < 256 implies #[trigger] table@[256 * q + b] == subset_sum(
                weights@.subrange(8 * q, 8 * q + 8),
                b as nat,
                8,
            ) by {
                if q < k {
                    assert(before[256 * q + b] == subset_sum(
                        weights@.subrange(8 * q, 8 * q + 8),
                        b as nat,
                        8,
                    ));
                    assert(table@[256 * q + b] == before[256 * q + b]);
                } else {
                    let at: usize = (256 * k) as usize;
                    assert(table@[at + b] == subset_sum(
                        weights@.subrange(8 * k, 8 * k + 8),
                        b as nat,
                        8,
                    ));
                }
            }
        }
        k = k + 1;
    }
    table
}

/// The combination of the weights over the set coordinates of `x`, by 16
/// table look-ups.
#[inline]
pub fn fold_one_slot(x: F128, table: &[F128]) -> (out: F128)
    requires
        table@.len() == 4096,
    ensures
        out == slot_value(x, table@),
{
    let ghost f = slot_term(x, table@);
    let mut out = F128::zero();
    let mut k: usize = 0;
    while k < 16
        invariant
            k <= 16,
            table@.len() == 4096,
            f == slot_term(x, table@),
            out == sum(k as nat, f),
        decreases 16 - k,
    {
        proof {
            lemma_element_byte(x, k as int, 0);
            assert(sum((k + 1) as nat, f) == sum(k as nat, f) + f(k as int));
        }
        let b: u64 = if k < 8 {
            (x.lo >> ((8 * k) as u64)) & 0xff
        } else {
            (x.hi >> ((8 * (k - 8)) as u64)) & 0xff
        };
        assert(b == element_byte(x, k as int));
        out = out + table[256 * k + b as usize];
        k = k + 1;
    }
    out
}

/// The switched table, from the weights.
pub(crate) fn fold_b128_elems(e: &[F128], weights: &[F128]) -> (out: Vec<F128>)
    requires
        weights@.len() == 128,
    ensures
        out@ == switched_table(e@, weights@),
{
    let table = build_byte_table(weights);
    let n: usize = e.len();
    let mut out: Vec<F128> = Vec::with_capacity(n);
    let mut j: usize = 0;
    while j < n
        invariant
            j <= n,
            n == e@.len(),
            weights@.len() == 128,
            is_byte_table(table@, weights@),
            out@.len() == j,
            forall|q: int| 0 <= q < j ==> #[trigger] out@[q] == bit_combination(e@[q], weights@),
        decreases n - j,
    {
        proof {
            lemma_slot_value(e@[j as int], table@, weights@);
        }
        out.push(fold_one_slot(e[j], &table));
        j = j + 1;
    }
    assert(out@ =~= switched_table(e@, weights@));
    out
}

/// The transcript part of one claim: absorb the message, sample the point and
/// return its weights.
pub(crate) fn switch_weights<Ch: Challenger>(s_hat_v: &[F128], challenger: &mut Ch) -> (w: Vec<F128>)
    ensures
        w@ == eq_table(switch_point::<Ch>(old(challenger).state(), s_hat_v@)),
        w@.len() == 128,
        final(challenger).state() == after_switch::<Ch>(old(challenger).state(), s_hat_v@),
{
    let label: [u8; 20] = [
        0x66, 0x6c, 0x6f, 0x63, 0x6b, 0x2d, 0x72, 0x69, 0x6e, 0x67, 0x2d, 0x73, 0x77, 0x69, 0x74,
        0x63, 0x68, 0x2d, 0x76, 0x30,
    ];
    assert(label@ =~= ring_switch_label());
    challenger.observe_label(&label);
    challenger.observe_f128_slice(s_hat_v);
    let r_dprime = challenger.sample_f128_vec(7);
    proof {
        lemma2_to64();
    }
    build_eq_table(&r_dprime)
}

/// Reduce the claim at `x_outer` to an inner product of the packed witness.
pub fn prove<Ch: Challenger>(packed_witness: &[F128], x_outer: &[F128], challenger: &mut Ch) -> (out: (
    RingSwitchProof,
    RingSwitchOutput,
))
    requires
        x_outer@.len() >= 1,
        packed_witness@.len() == pow2((x_outer@.len() - 1) as nat),
    ensures
        ({
            let e = eq_table(tail(x_outer@));
            let message = partial_evaluations(packed_witness@, e);
            let w = eq_table(switch_point::<Ch>(old(challenger).state(), message));
            &&& out.0.s_hat_v@ == message
            &&& out.1.rs_eq_ind@ == switched_table(e, w)
            &&& out.1.sumcheck_claim == switched_claim(message, w)
            &&& final(challenger).state() == after_switch::<Ch>(old(challenger).state(), message)
        }),
{
    let n: usize = packed_witness.len();
    let eq = build_eq_table(slice_subrange(x_outer, 1, x_outer.len()));
    let padding = PaddingSpec::all();
    assert(kept(packed_witness@, padding) =~= packed_witness@);
    let s_hat_v = fold_1b_rows(packed_witness, &eq, &padding);
    let weights = switch_weights(&s_hat_v, challenger);
    let sumcheck_claim = combine_columns(&s_hat_v, &weights);
    let rs_eq_ind = fold_b128_elems(&eq, &weights);
    (RingSwitchProof { s_hat_v }, RingSwitchOutput { rs_eq_ind, sumcheck_claim })
}

// ---------------------------------------------------------------------------
// Verifier
// ---------------------------------------------------------------------------

/// Check the partial evaluations against the claim, and reduce it. The table
/// is not built: [`eval_rs_eq`] evaluates it from the weights.
pub fn verify_succinct<Ch: Challenger>(
    claim: F128,
    z_skip: F128,
    x_outer: &[F128],
    proof_in: &RingSwitchProof,
    challenger: &mut Ch,
) -> (out: Result<RingSwitchVerifierOutput, VerifyError>)
    requires
        x_outer@.len() >= 1,
    ensures
        ({
            let s = old(challenger).state();
            let message = proof_in.s_hat_v@;
            match out {
                Err(e) => {
                    &&& final(challenger).state() == s
                    &&& switch_error(message, claim, z_skip, x_outer@) == Some(e)
                },
                Ok(o) => {
                    let w = eq_table(switch_point::<Ch>(s, message));
                    &&& switch_error(message, claim, z_skip, x_outer@) is None
                    &&& final(challenger).state() == after_switch::<Ch>(s, message)
                    &&& o.eq_r_dprime@ == w
                    &&& o.eq_r_dprime@.len() == 128
                    &&& o.sumcheck_claim == switched_claim(message, w)
                },
            }
        }),
{
    if proof_in.s_hat_v.len() != 128 {
        return Err(VerifyError::InvalidProofShape);
    }
    let s_hat_v = &proof_in.s_hat_v;
    let lambda = lagrange_weights_naive(6, z_skip);
    proof {
        lemma2_to64();
    }
    let x0 = x_outer[0];
    let ghost f = skip_term(s_hat_v@, z_skip, x0);
    let mut acc = F128::zero();
    let mut i: usize = 0;
    while i < 64
        invariant
            i <= 64,
            s_hat_v@.len() == 128,
            lambda@ == lagrange_table(6, z_skip),
            lambda@.len() == 64,
            f == skip_term(s_hat_v@, z_skip, x0),
            acc == sum(i as nat, f),
        decreases 64 - i,
    {
        assert(sum((i + 1) as nat, f) == sum(i as nat, f) + f(i as int));
        acc = acc + lambda[i] * ((F128::one() + x0) * s_hat_v[i] + x0 * s_hat_v[i + 64]);
        i = i + 1;
    }
    if acc != claim {
        return Err(VerifyError::ClaimMismatch);
    }
    let eq_r_dprime = switch_weights(s_hat_v, challenger);
    let sumcheck_claim = combine_columns(s_hat_v, &eq_r_dprime);
    Ok(RingSwitchVerifierOutput { sumcheck_claim, eq_r_dprime })
}

/// What is wrong with the message of a claim.
pub open spec fn switch_error(
    message: Seq<F128>,
    claim: F128,
    z_skip: F128,
    x_outer: Seq<F128>,
) -> Option<VerifyError> {
    if message.len() != 128 {
        Some(VerifyError::InvalidProofShape)
    } else if recombined(message, z_skip, x_outer[0]) != claim {
        Some(VerifyError::ClaimMismatch)
    } else {
        None
    }
}

} // verus!
