//! What ring-switching promises.
use vstd::arithmetic::power2::{lemma2_to64, lemma_pow2_unfold, pow2};
use vstd::prelude::*;
use crate::algebra::{
    lemma_sum_add, lemma_sum_ext, lemma_sum_pairs, lemma_sum_scale, lemma_sum_swap, sum,
};
use crate::bits::{lemma_bit64_ops, lemma_bit64_set};
use crate::field::gf2_128::{lemma_mul_associates, lemma_mul_commutes, lemma_mul_distributes};
use crate::field::F128;
use crate::pcs::fold::lemma_eq_weight_front;
use crate::pcs::pack::{element_bit, lemma_element_extensional, packed_bit};
use crate::pcs::ring_switch::{
    bit_combination, bit_term, column, column_term, kept, lemma_bit_term, lemma_zero_bits, monomial,
    partial_evaluation, partial_evaluations, recombined, row_term, skip_term, switched_claim,
    switched_table, switched_term, tail,
};
use crate::r1cs::laws::bit_value;
use crate::r1cs::{lemma_parity_ext, parity};
use crate::zerocheck::multilinear::{dot, eq_table, eq_weight, lagrange_table, mle};
use crate::zerocheck::PaddingSpec;

verus! {

// ---------------------------------------------------------------------------
// Coordinates
// ---------------------------------------------------------------------------

/// The coordinates of a sum.
pub proof fn lemma_sum_coordinate(a: F128, b: F128, u: int)
    requires
        0 <= u < 128,
    ensures
        element_bit(a + b, u) == (element_bit(a, u) != element_bit(b, u)),
{
    reveal(F128::spec_add);
    if u < 64 {
        lemma_bit64_ops(a.lo, b.lo, u);
    } else {
        lemma_bit64_ops(a.hi, b.hi, u - 64);
    }
}

/// The coordinates of a sum of many.
pub proof fn lemma_coordinate_of_sum(n: nat, f: spec_fn(int) -> F128, u: int)
    requires
        0 <= u < 128,
    ensures
        element_bit(sum(n, f), u) == parity(n, |i: int| element_bit(f(i), u)),
    decreases n,
{
    let g = |i: int| element_bit(f(i), u);
    if n == 0 {
        lemma_zero_bits(u);
    } else {
        lemma_coordinate_of_sum((n - 1) as nat, f, u);
        lemma_sum_coordinate(sum((n - 1) as nat, f), f(n - 1), u);
        assert(g(n - 1) == element_bit(f(n - 1), u));
    }
}

/// The coordinates of a monomial.
pub proof fn lemma_monomial_bits(v: int, u: int)
    requires
        0 <= u < 128,
        0 <= v < 128,
    ensures
        element_bit(monomial(v), u) == (u == v),
{
    let i = if u < 64 {
        u
    } else {
        u - 64
    };
    let j = if v < 64 {
        v
    } else {
        v - 64
    };
    lemma_bit64_set(0, j, i);
    lemma_bit64_ops(0, 0, i);
    lemma_monomial_words(1u64 << (j as u64));
}

/// The words that monomials are made of.
pub proof fn lemma_monomial_words(m: u64)
    by (bit_vector)
    ensures
        0u64 | m == m,
        1u64 << 0u64 == 1u64,
{
}

/// A parity in which one term counts.
proof fn lemma_parity_one(n: nat, at: int, f: spec_fn(int) -> bool)
    requires
        0 <= at,
        forall|i: int| 0 <= i < n && i != at ==> !(#[trigger] f(i)),
    ensures
        parity(n, f) == (at < n && f(at)),
    decreases n,
{
    if n > 0 {
        lemma_parity_one((n - 1) as nat, at, f);
        if n - 1 != at {
            assert(!f(n - 1));
        }
    }
}

/// Coordinate `v` of a column is coordinate `u` of row `v`.
pub proof fn lemma_column_bits(s: Seq<F128>, u: int, v: int)
    requires
        0 <= v < 128,
    ensures
        element_bit(column(s, u), v) == element_bit(s[v], u),
{
    let f = column_term(s, u);
    lemma_coordinate_of_sum(128, f, v);
    let g = |i: int| element_bit(f(i), v);
    let b = |i: int| element_bit(s[i], u);
    assert forall|i: int| 0 <= i < 128 implies #[trigger] g(i) == (i == v && b(i)) by {
        lemma_bit_term(monomial(i), b(i));
        lemma_monomial_bits(i, v);
        lemma_zero_bits(v);
    }
    lemma_parity_one(128, v, g);
    assert(g(v) == b(v));
}

/// An element is the sum of the monomials of its coordinates.
pub proof fn lemma_element_is_monomials(x: F128)
    ensures
        x == bit_combination(x, Seq::new(128, |v: int| monomial(v))),
{
    let m = Seq::new(128, |v: int| monomial(v));
    let f = bit_term(x, m);
    let y = bit_combination(x, m);
    assert forall|v: int| 0 <= v < 128 implies #[trigger] element_bit(x, v) == element_bit(y, v) by {
        lemma_coordinate_of_sum(128, f, v);
        let g = |i: int| element_bit(f(i), v);
        assert forall|i: int| 0 <= i < 128 implies #[trigger] g(i) == (i == v && element_bit(
            x,
            i,
        )) by {
            lemma_bit_term(monomial(i), element_bit(x, i));
            lemma_monomial_bits(i, v);
            lemma_zero_bits(v);
        }
        lemma_parity_one(128, v, g);
        assert(g(v) == element_bit(x, v));
    }
    lemma_element_extensional(x, y);
}

// ---------------------------------------------------------------------------
// The two sides of the reduction
// ---------------------------------------------------------------------------

/// `Σ_j e[j] · (Σ_{u set in z[j]} w[u]) == Σ_u (Σ_{j: u set in z[j]} e[j]) · w[u]`.
pub proof fn lemma_bits_swap(z: Seq<F128>, e: Seq<F128>, w: Seq<F128>)
    ensures
        sum(z.len(), |j: int| e[j] * bit_combination(z[j], w)) == sum(
            128,
            |u: int| partial_evaluation(z, e, u) * w[u],
        ),
{
    let n = z.len();
    let t = |j: int, u: int| e[j] * (w[u] * bit_value(element_bit(z[j], u)));
    let left = |j: int| e[j] * bit_combination(z[j], w);
    let right = |u: int| partial_evaluation(z, e, u) * w[u];
    let rows = |j: int| sum(128, |u: int| t(j, u));
    let cols = |u: int| sum(n, |j: int| t(j, u));
    assert forall|j: int| 0 <= j < n implies #[trigger] left(j) == rows(j) by {
        let f = bit_term(z[j], w);
        lemma_sum_scale(128, e[j], f);
        lemma_sum_ext(128, |u: int| e[j] * f(u), |u: int| t(j, u));
    }
    lemma_sum_ext(n, left, rows);
    assert forall|u: int| 0 <= u < 128 implies #[trigger] right(u) == cols(u) by {
        let f = row_term(z, e, u);
        lemma_sum_scale(n, w[u], f);
        let scaled = |j: int| f(j) * w[u];
        let tu = |j: int| t(j, u);
        assert forall|j: int| 0 <= j < n implies #[trigger] scaled(j) == tu(j) by {
            let b = bit_value(element_bit(z[j], u));
            lemma_mul_commutes(b, w[u]);
            lemma_mul_associates(e[j], b, w[u]);
        }
        lemma_sum_ext(n, scaled, tu);
    }
    lemma_sum_ext(128, right, cols);
    lemma_sum_swap(n, 128, t);
}

/// The columns of the partial evaluations are the witness, weighted by the
/// coordinates of `e`.
pub proof fn lemma_columns(z: Seq<F128>, e: Seq<F128>, u: int)
    requires
        z.len() == e.len(),
        0 <= u < 128,
    ensures
        column(partial_evaluations(z, e), u) == partial_evaluation(e, z, u),
{
    let s = partial_evaluations(z, e);
    let (x, y) = (column(s, u), partial_evaluation(e, z, u));
    assert forall|v: int| 0 <= v < 128 implies #[trigger] element_bit(x, v) == element_bit(y, v) by {
        lemma_column_bits(s, u, v);
        let f = row_term(z, e, v);
        let g = row_term(e, z, u);
        lemma_coordinate_of_sum(z.len(), f, u);
        lemma_coordinate_of_sum(z.len(), g, v);
        let fb = |j: int| element_bit(f(j), u);
        let gb = |j: int| element_bit(g(j), v);
        assert forall|j: int| 0 <= j < z.len() implies #[trigger] fb(j) == gb(j) by {
            lemma_bit_term(e[j], element_bit(z[j], v));
            lemma_bit_term(z[j], element_bit(e[j], u));
            lemma_zero_bits(u);
            lemma_zero_bits(v);
        }
        lemma_parity_ext(z.len(), fb, gb);
    }
    lemma_element_extensional(x, y);
}

/// The reduced claim of an honest message is the inner product of the packed
/// witness with the switched table.
pub proof fn lemma_switched_claim_is_inner_product(z: Seq<F128>, e: Seq<F128>, w: Seq<F128>)
    requires
        z.len() == e.len(),
    ensures
        switched_claim(partial_evaluations(z, e), w) == dot(z, switched_table(e, w)),
{
    let t = switched_table(e, w);
    lemma_bits_swap(e, z, w);
    lemma_sum_ext(
        z.len(),
        |i: int| z[i] * t[i],
        |j: int| z[j] * bit_combination(e[j], w),
    );
    let s = partial_evaluations(z, e);
    let f = switched_term(s, w);
    let g = |u: int| partial_evaluation(e, z, u) * w[u];
    assert forall|u: int| 0 <= u < 128 implies #[trigger] f(u) == g(u) by {
        lemma_columns(z, e, u);
        lemma_mul_commutes(w[u], column(s, u));
    }
    lemma_sum_ext(128, f, g);
}

/// The value of the switched table at a point.
pub proof fn lemma_switched_table_value(x: Seq<F128>, q: Seq<F128>, w: Seq<F128>)
    requires
        x.len() == q.len(),
    ensures
        mle(switched_table(eq_table(x), w), q) == sum(
            128,
            |u: int| partial_evaluation(eq_table(x), eq_table(q), u) * w[u],
        ),
{
    let (ex, eqq) = (eq_table(x), eq_table(q));
    let t = switched_table(ex, w);
    lemma_bits_swap(ex, eqq, w);
    let f = |i: int| t[i] * eqq[i];
    let g = |j: int| eqq[j] * bit_combination(ex[j], w);
    assert forall|i: int| 0 <= i < ex.len() implies #[trigger] f(i) == g(i) by {
        lemma_mul_commutes(t[i], eqq[i]);
    }
    lemma_sum_ext(ex.len(), f, g);
}

/// Scaled weights scale the switched table.
pub proof fn lemma_scaled_weights(x: F128, w: Seq<F128>, g: F128)
    requires
        w.len() == 128,
    ensures
        bit_combination(x, Seq::new(128, |u: int| g * w[u])) == g * bit_combination(x, w),
{
    let sw = Seq::new(128, |u: int| g * w[u]);
    let f = bit_term(x, w);
    lemma_sum_scale(128, g, f);
    let h = bit_term(x, sw);
    let k = |u: int| g * f(u);
    assert forall|u: int| 0 <= u < 128 implies #[trigger] h(u) == k(u) by {
        lemma_mul_associates(g, w[u], bit_value(element_bit(x, u)));
    }
    lemma_sum_ext(128, h, k);
}

// ---------------------------------------------------------------------------
// The claim on the bits
// ---------------------------------------------------------------------------

pub open spec fn bit_claim_inner(z: Seq<F128>, z_skip: F128, i: int) -> spec_fn(int) -> F128 {
    |s: int| lagrange_table(6, z_skip)[s] * bit_value(packed_bit(z, 64 * i + s))
}

pub open spec fn bit_claim_term(z: Seq<F128>, z_skip: F128, x_outer: Seq<F128>) -> spec_fn(
    int,
) -> F128 {
    |i: int| eq_weight(x_outer, i as nat) * sum(64, bit_claim_inner(z, z_skip, i))
}

/// The value at `(z_skip, x_outer)` of the bit witness: its bits weighted by
/// the Lagrange weights of their low six index bits and the `eq` weights of
/// the others.
pub open spec fn bit_claim(z: Seq<F128>, z_skip: F128, x_outer: Seq<F128>) -> F128 {
    sum(pow2(x_outer.len()), bit_claim_term(z, z_skip, x_outer))
}

/// The partial evaluations of a witness recombine to its value: an honest
/// message passes the verifier's check exactly for the true claim.
pub proof fn lemma_recombined_is_bit_claim(z: Seq<F128>, z_skip: F128, x_outer: Seq<F128>)
    requires
        x_outer.len() >= 1,
        z.len() == pow2((x_outer.len() - 1) as nat),
    ensures
        recombined(
            partial_evaluations(z, eq_table(tail(x_outer))),
            z_skip,
            x_outer[0],
        ) == bit_claim(z, z_skip, x_outer),
{
    let x0 = x_outer[0];
    let rest = tail(x_outer);
    let n = z.len();
    let e = eq_table(rest);
    let s = partial_evaluations(z, e);
    let lam = lagrange_table(6, z_skip);
    lemma2_to64();
    assert(x_outer =~= seq![x0] + rest);
    lemma_pow2_unfold(x_outer.len());
    let f = bit_claim_term(z, z_skip, x_outer);
    lemma_sum_pairs(n, f);
    let pairs = |j: int| f(2 * j) + f(2 * j + 1);
    let one_x = F128::one() + x0;
    // The contribution of element `j` and skip index `i`.
    let t = |j: int, i: int|
        lam[i] * (one_x * (e[j] * bit_value(element_bit(z[j], i))) + x0 * (e[j] * bit_value(
            element_bit(z[j], i + 64),
        )));
    let rows = |j: int| sum(64, |i: int| t(j, i));
    let cols = |i: int| sum(n, |j: int| t(j, i));
    assert forall|j: int| 0 <= j < n implies #[trigger] pairs(j) == rows(j) by {
        lemma_eq_weight_front(rest, x0, j as nat);
        let (g0, g1) = (bit_claim_inner(z, z_skip, 2 * j), bit_claim_inner(z, z_skip, 2 * j + 1));
        let (c0, c1) = (one_x * e[j], x0 * e[j]);
        lemma_sum_scale(64, c0, g0);
        lemma_sum_scale(64, c1, g1);
        let (h0, h1) = (|i: int| c0 * g0(i), |i: int| c1 * g1(i));
        lemma_sum_add(64, h0, h1);
        let both = |i: int| h0(i) + h1(i);
        let row = |i: int| t(j, i);
        assert forall|i: int| 0 <= i < 64 implies #[trigger] both(i) == row(i) by {
            let p0 = 64 * (2 * j) + i;
            let p1 = 64 * (2 * j + 1) + i;
            assert(p0 / 128 == j && p0 % 128 == i);
            assert(p1 / 128 == j && p1 % 128 == i + 64);
            let (b0, b1) = (
                bit_value(element_bit(z[j], i)),
                bit_value(element_bit(z[j], i + 64)),
            );
            lemma_weigh(one_x, e[j], lam[i], b0);
            lemma_weigh(x0, e[j], lam[i], b1);
            lemma_mul_distributes(lam[i], one_x * (e[j] * b0), x0 * (e[j] * b1));
        }
        lemma_sum_ext(64, both, row);
    }
    lemma_sum_ext(n, pairs, rows);
    let k = skip_term(s, z_skip, x0);
    assert forall|i: int| 0 <= i < 64 implies #[trigger] k(i) == cols(i) by {
        let (g0, g1) = (row_term(z, e, i), row_term(z, e, i + 64));
        lemma_sum_scale(n, one_x, g0);
        lemma_sum_scale(n, x0, g1);
        let (h0, h1) = (|j: int| one_x * g0(j), |j: int| x0 * g1(j));
        lemma_sum_add(n, h0, h1);
        let both = |j: int| h0(j) + h1(j);
        lemma_sum_scale(n, lam[i], both);
        lemma_sum_ext(n, |j: int| lam[i] * both(j), |j: int| t(j, i));
    }
    lemma_sum_ext(64, k, cols);
    lemma_sum_swap(n, 64, t);
}

proof fn lemma_weigh(c: F128, e: F128, l: F128, b: F128)
    ensures
        (c * e) * (l * b) == l * (c * (e * b)),
{
    lemma_mul_associates(c * e, l, b);
    lemma_mul_commutes(c * e, l);
    lemma_mul_associates(l, c * e, b);
    lemma_mul_associates(c, e, b);
}

/// Leaving out elements that are zero changes nothing.
pub proof fn lemma_padding_is_immaterial(z: Seq<F128>, padding: PaddingSpec)
    requires
        forall|j: int| 0 <= j < z.len() && !padding.live(j) ==> #[trigger] z[j] == F128::zero(),
    ensures
        kept(z, padding) == z,
{
    assert(kept(z, padding) =~= z);
}

} // verus!
