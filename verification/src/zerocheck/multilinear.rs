//! Weights of multilinear and univariate-skip evaluation.
//!
//! A multilinear polynomial is given by its values on the cube: entry `i` of
//! the table is the value at the point whose coordinate `j` is bit `j` of `i`.
//! Its value at an arbitrary point is the sum of the table's entries weighted
//! by [`eq_weight`]. A univariate-skip coordinate binds `2^k` consecutive
//! entries at once, weighted by the Lagrange basis over `φ_8(0), …, φ_8(2^k − 1)`.
use vstd::arithmetic::power2::{lemma2_to64, lemma_pow2_pos, lemma_pow2_unfold, pow2};
use vstd::prelude::*;
use crate::algebra::{lemma_sum_add, lemma_sum_ext, lemma_sum_scale, lemma_sum_split, sum};
use crate::field::gf2_128::{
    lemma_add_rules, lemma_add_zero, lemma_mul_associates, lemma_mul_commutes,
    lemma_mul_distributes, lemma_mul_interchange, lemma_mul_units,
};
use crate::field::phi8::{phi8, phi8_spec};
use crate::field::{F128, F8};
use crate::index::{index_bit, lemma_high_bit, pow2_usize};

verus! {

/// `Π_j eq(point[j], bit_j(i))` where `eq(r, 1) = r` and `eq(r, 0) = 1 + r`.
pub open spec fn eq_weight(point: Seq<F128>, i: nat) -> F128
    decreases point.len(),
{
    if point.len() == 0 {
        F128::one()
    } else {
        eq_weight(point.drop_last(), i) * eq_factor(
            point.last(),
            index_bit(i, (point.len() - 1) as nat),
        )
    }
}

pub open spec fn eq_factor(r: F128, bit: bool) -> F128 {
    if bit {
        r
    } else {
        F128::one() + r
    }
}

/// The weights of all corners of the cube.
pub open spec fn eq_table(point: Seq<F128>) -> Seq<F128> {
    Seq::new(pow2(point.len()), |i: int| eq_weight(point, i as nat))
}

/// `Σ_i a[i] · b[i]`.
pub open spec fn dot(a: Seq<F128>, b: Seq<F128>) -> F128 {
    sum(a.len(), |i: int| a[i] * b[i])
}

/// The value at `point` of the multilinear polynomial with table `values`.
pub open spec fn mle(values: Seq<F128>, point: Seq<F128>) -> F128 {
    dot(values, eq_table(point))
}

/// The table with its last variable bound to `r`.
pub open spec fn bound_top(v: Seq<F128>, r: F128) -> Seq<F128> {
    Seq::new(v.len() / 2, |i: int| v[i] + r * (v[i + v.len() / 2] + v[i]))
}

/// The table with its last variables bound to the challenges, in turn.
pub open spec fn bound_all(v: Seq<F128>, rs: Seq<F128>) -> Seq<F128>
    decreases rs.len(),
{
    if rs.len() == 0 {
        v
    } else {
        bound_top(bound_all(v, rs.drop_last()), rs.last())
    }
}

/// `Π_{m < n, m ≠ skip} (z + φ_8(m))`.
pub open spec fn node_product(z: F128, skip: int, n: nat) -> F128
    decreases n,
{
    if n == 0 {
        F128::one()
    } else if n - 1 == skip {
        node_product(z, skip, (n - 1) as nat)
    } else {
        node_product(z, skip, (n - 1) as nat) * (z + node(n - 1))
    }
}

/// The interpolation node number `m`.
pub open spec fn node(m: int) -> F128 {
    phi8_spec(F8(m as u8))
}

/// The Lagrange polynomial of node `j` among the first `2^k_skip`, at `z`.
pub open spec fn lagrange_weight(k_skip: nat, z: F128, j: int) -> F128 {
    node_product(z, j, pow2(k_skip)) * node_product(node(j), j, pow2(k_skip)).inverse()
}

/// The Lagrange weights of all nodes.
pub open spec fn lagrange_table(k_skip: nat, z: F128) -> Seq<F128> {
    Seq::new(pow2(k_skip), |j: int| lagrange_weight(k_skip, z, j))
}

/// Lagrange weights at `z` for the nodes `φ_8(0), …, φ_8(2^k_skip − 1)`.
pub fn lagrange_weights_naive(k_skip: usize, z: F128) -> (out: Vec<F128>)
    requires
        k_skip <= 8,
    ensures
        out@ == lagrange_table(k_skip as nat, z),
{
    proof {
        lemma2_to64();
        lemma_small_powers(k_skip as nat);
    }
    let n: usize = pow2_usize(k_skip);
    let mut nodes: Vec<F128> = Vec::new();
    let mut m: usize = 0;
    while m < n
        invariant
            m <= n <= 256,
            nodes@.len() == m,
            forall|i: int| 0 <= i < m ==> nodes@[i] == node(i),
        decreases n - m,
    {
        nodes.push(phi8(F8(m as u8)));
        m = m + 1;
    }
    let mut out: Vec<F128> = Vec::new();
    let mut j: usize = 0;
    while j < n
        invariant
            n == pow2(k_skip as nat),
            j <= n <= 256,
            nodes@.len() == n,
            forall|i: int| 0 <= i < n ==> nodes@[i] == node(i),
            out@.len() == j,
            forall|i: int| 0 <= i < j ==> out@[i] == lagrange_weight(k_skip as nat, z, i),
        decreases n - j,
    {
        let mut num = F128::one();
        let mut den = F128::one();
        let mut i: usize = 0;
        while i < n
            invariant
                i <= n,
                j < n,
                nodes@.len() == n,
                forall|i: int| 0 <= i < n ==> nodes@[i] == node(i),
                num == node_product(z, j as int, i as nat),
                den == node_product(node(j as int), j as int, i as nat),
            decreases n - i,
        {
            if i != j {
                num = num * (z + nodes[i]);
                den = den * (nodes[j] + nodes[i]);
            }
            i = i + 1;
        }
        out.push(num * den.inv());
        j = j + 1;
    }
    out
}

pub proof fn lemma_small_powers(k: nat)
    requires
        k <= 8,
    ensures
        1 <= pow2(k) <= 256,
{
    lemma2_to64();
    lemma_pow2_pos(k);
    if k < 8 {
        vstd::arithmetic::power2::lemma_pow2_strictly_increases(k, 8);
    }
}

/// Build the eq-MLE table at `point ∈ F^d`. Returns a length-`2^d` vector
/// where `output[i] = Π_j (1 + point[j] + bit_j(i)) = Π_j eq(point[j], bit_j(i))`.
///
/// Doubling construction: `O(2^d)` multiplications, no inversions. Indexing is
/// LSB-first — `bit_j(i)` is the `j`-th LSB of `i`.
pub fn build_eq_table(point: &[F128]) -> (out: Vec<F128>)
    requires
        pow2(point@.len()) <= usize::MAX,
    ensures
        out@ == eq_table(point@),
        out@.len() == pow2(point@.len()),
{
    let d: usize = point.len();
    proof {
        lemma2_to64();
    }
    let mut out: Vec<F128> = Vec::with_capacity(pow2_usize(d));
    out.push(F128::one());
    proof {
        assert(point@.take(0) =~= Seq::<F128>::empty());
        assert(out@ =~= eq_table(point@.take(0)));
    }
    let mut j: usize = 0;
    while j < d
        invariant
            j <= d,
            d == point@.len(),
            pow2(d as nat) <= usize::MAX,
            out@ == eq_table(point@.take(j as int)),
        decreases d - j,
    {
        let r_j = point[j];
        let one_plus_r_j = F128::one() + r_j;
        let ghost p = point@.take(j as int);
        proof {
            lemma_pow2_unfold((j + 1) as nat);
            if j + 1 < d {
                vstd::arithmetic::power2::lemma_pow2_strictly_increases((j + 1) as nat, d as nat);
            }
            assert(point@.take(j + 1).drop_last() =~= p);
        }
        let len: usize = out.len();
        out.resize(2 * len, F128::zero());
        proof {
            assert forall|q: int| 0 <= q < len implies out@[q] == #[trigger] eq_weight(p, q as nat) by {
                assert(out@[q] == out@.subrange(0, len as int)[q]);
            }
        }
        let mut i: usize = 0;
        while i < len
            invariant
                i <= len,
                len == pow2(j as nat),
                p.len() == j,
                out@.len() == 2 * len,
                2 * len <= usize::MAX,
                one_plus_r_j == F128::one() + r_j,
                forall|q: int| 0 <= q < i ==> out@[q] == #[trigger] eq_weight(p, q as nat) * (F128::one() + r_j),
                forall|q: int| 0 <= q < i ==> out@[q + len] == #[trigger] eq_weight(p, q as nat) * r_j,
                forall|q: int| i <= q < len ==> out@[q] == #[trigger] eq_weight(p, q as nat),
            decreases len - i,
        {
            let v = out[i];
            out[i + len] = v * r_j;
            out[i] = v * one_plus_r_j;
            i = i + 1;
        }
        proof {
            let next = point@.take(j + 1);
            assert(next =~= p.push(r_j));
            assert forall|q: int| 0 <= q < 2 * len implies #[trigger] out@[q] == eq_weight(next, q as nat) by {
                if q < len {
                    lemma_eq_weight_push(p, r_j, q as nat);
                } else {
                    let b = (q - len) as nat;
                    lemma_eq_weight_push(p, r_j, b);
                    assert(out@[b + len] == eq_weight(p, b) * r_j);
                }
            }
            assert(out@ =~= eq_table(next));
        }
        j = j + 1;
    }
    proof {
        assert(point@.take(d as int) =~= point@);
    }
    out
}

/// Only the bits that the point has coordinates for matter.
pub proof fn lemma_eq_weight_low_bits(point: Seq<F128>, a: nat, b: nat)
    requires
        forall|j: nat| j < point.len() ==> #[trigger] index_bit(a, j) == index_bit(b, j),
    ensures
        eq_weight(point, a) == eq_weight(point, b),
    decreases point.len(),
{
    if point.len() > 0 {
        lemma_eq_weight_low_bits(point.drop_last(), a, b);
        assert(index_bit(a, (point.len() - 1) as nat) == index_bit(b, (point.len() - 1) as nat));
    }
}

/// The weights with one more coordinate, in both halves of the cube.
pub proof fn lemma_eq_weight_push(point: Seq<F128>, r: F128, i: nat)
    requires
        i < pow2(point.len()),
    ensures
        eq_weight(point.push(r), i) == eq_weight(point, i) * (F128::one() + r),
        eq_weight(point.push(r), i + pow2(point.len())) == eq_weight(point, i) * r,
{
    let n = point.len();
    let next = point.push(r);
    assert(next.drop_last() =~= point);
    assert(next.last() == r);
    lemma_high_bit(i, n, n);
    assert forall|j: nat| j < n implies #[trigger] index_bit(i + pow2(n), j) == index_bit(i, j) by {
        lemma_high_bit(i, n, j);
    }
    lemma_eq_weight_low_bits(point, i + pow2(n), i);
}

/// The weights of a point sum to one.
pub proof fn lemma_eq_weights_sum_to_one(point: Seq<F128>)
    ensures
        sum(pow2(point.len()), |i: int| eq_weight(point, i as nat)) == F128::one(),
    decreases point.len(),
{
    let n = point.len();
    lemma2_to64();
    let f = |i: int| eq_weight(point, i as nat);
    if n == 0 {
        assert(sum(1, f) == sum(0, f) + f(0));
        lemma_add_zero(F128::one());
    } else {
        let p = point.drop_last();
        let r = point.last();
        assert(p.push(r) =~= point);
        let h = pow2((n - 1) as nat);
        lemma_pow2_unfold(n);
        let g = |i: int| eq_weight(p, i as nat);
        lemma_eq_weights_sum_to_one(p);
        lemma_sum_split(h, h, f);
        let lo = |i: int| g(i) * (F128::one() + r);
        let hi = |i: int| g(i) * r;
        assert forall|i: int| 0 <= i < h implies #[trigger] f(i) == lo(i) by {
            lemma_eq_weight_push(p, r, i as nat);
        }
        lemma_sum_ext(h, f, lo);
        let f2 = |i: int| f(h + i);
        assert forall|i: int| 0 <= i < h implies #[trigger] f2(i) == hi(i) by {
            lemma_eq_weight_push(p, r, i as nat);
        }
        lemma_sum_ext(h, f2, hi);
        lemma_sum_scale(h, F128::one() + r, g);
        lemma_sum_scale(h, r, g);
        lemma_mul_units(F128::one() + r);
        lemma_mul_units(r);
        lemma_add_rules(F128::one(), r, r, r);
    }
}

/// Binding the last variable is evaluating at it: the weights of `point.push(r)`
/// against `v` are those of `point` against the bound table.
pub proof fn lemma_bind_is_evaluation(v: Seq<F128>, point: Seq<F128>, r: F128)
    requires
        v.len() == pow2(point.len() + 1),
    ensures
        mle(v, point.push(r)) == mle(bound_top(v, r), point),
        bound_top(v, r).len() == pow2(point.len()),
{
    let n = point.len();
    let h = pow2(n);
    lemma_pow2_unfold(n + 1);
    let next = point.push(r);
    let f = |i: int| v[i] * eq_table(next)[i];
    let b = bound_top(v, r);
    let g = |i: int| b[i] * eq_table(point)[i];
    lemma_sum_split(h, h, f);
    let f2 = |i: int| f(h + i);
    lemma_sum_add(h, f, f2);
    let both = |i: int| f(i) + f2(i);
    assert forall|i: int| 0 <= i < h implies #[trigger] both(i) == g(i) by {
        lemma_eq_weight_push(point, r, i as nat);
        let e = eq_weight(point, i as nat);
        lemma_weighted_pair(v[i], v[i + h], r, e);
        assert(b[i] == v[i] + r * (v[i + h] + v[i]));
        assert(eq_table(next)[i] == e * (F128::one() + r));
        assert(eq_table(next)[h + i] == e * r);
    }
    lemma_sum_ext(h, both, g);
}

pub proof fn lemma_weighted_pair(a: F128, b: F128, r: F128, e: F128)
    ensures
        a * (e * (F128::one() + r)) + b * (e * r) == (a + r * (b + a)) * e,
{
    let one = F128::one();
    // a·(e·(1 + r)) = a·e + (a·r)·e
    lemma_mul_commutes(e, one + r);
    lemma_mul_associates(a, one + r, e);
    lemma_mul_distributes(a, one, r);
    lemma_mul_units(a);
    assert(a * (e * (one + r)) == (a + a * r) * e);
    lemma_mul_commutes(e, r);
    lemma_mul_associates(b, r, e);
    assert(b * (e * r) == (b * r) * e);
    lemma_mul_distributes(e, a + a * r, b * r);
    lemma_mul_distributes(r, b, a);
    lemma_mul_commutes(r, b);
    lemma_mul_commutes(r, a);
    lemma_add_rules(a, a * r, b * r, a);
    lemma_add_rules(a * r, b * r, a, a);
}

/// Binding all the last variables is evaluating at the challenges, the last
/// challenge being the lowest coordinate.
pub proof fn lemma_bind_all_is_evaluation(v: Seq<F128>, point: Seq<F128>, rs: Seq<F128>)
    requires
        v.len() == pow2(point.len() + rs.len()),
    ensures
        bound_all(v, rs).len() == pow2(point.len()),
        mle(v, point + rs.reverse()) == mle(bound_all(v, rs), point),
    decreases rs.len(),
{
    if rs.len() == 0 {
        assert(point + rs.reverse() =~= point);
    } else {
        let prev = rs.drop_last();
        let r = rs.last();
        lemma_bind_all_is_evaluation(v, point.push(r), prev);
        assert(point.push(r) + prev.reverse() =~= point + rs.reverse());
        lemma_bind_is_evaluation(bound_all(v, prev), point, r);
    }
}

/// One round of the product sumcheck: with `q(X)` the product of the two
/// tables as functions of their last variable, `q(0) + q(1)` is the sum of
/// the products, and the quadratic through `q(0)`, `q(1)` and the leading
/// coefficient `q(∞)` takes at `r` the sum over the bound tables.
pub proof fn lemma_product_round(a: Seq<F128>, b: Seq<F128>, r: F128)
    requires
        a.len() == b.len(),
        a.len() % 2 == 0,
    ensures
        ({
            let (e1, einf) = round_message(a, b);
            dot(bound_top(a, r), bound_top(b, r)) == round_value(dot(a, b), e1, einf, r)
        }),
{
    let h = a.len() / 2;
    let (e1, einf) = round_message(a, b);
    let f = |i: int| a[i] * b[i];
    let hi = |i: int| a[i + h] * b[i + h];
    let inf = |i: int| (a[i + h] + a[i]) * (b[i + h] + b[i]);
    let (ba, bb) = (bound_top(a, r), bound_top(b, r));
    let g = |i: int| ba[i] * bb[i];
    lemma_sum_split(h, h, f);
    let f2 = |i: int| f(h + i);
    lemma_sum_ext(h, f2, hi);
    let e0 = sum(h, f);
    lemma_add_rules(e0, e1, e1, e1);
    assert(dot(a, b) + e1 == e0);
    let c1 = e0 + e1 + einf;
    // Σ of f + r·(f + hi + inf) + r²·inf
    let lin = |i: int| (f(i) + hi(i)) + inf(i);
    let fh = |i: int| f(i) + hi(i);
    lemma_sum_add(h, f, hi);
    lemma_sum_add(h, fh, inf);
    lemma_sum_ext(h, lin, |i: int| fh(i) + inf(i));
    lemma_sum_scale(h, r, lin);
    lemma_sum_scale(h, r, inf);
    let inf_r = |i: int| inf(i) * r;
    lemma_sum_scale(h, r, inf_r);
    let inf_rr = |i: int| inf_r(i) * r;
    let lin_r = |i: int| lin(i) * r;
    let p1 = |i: int| inf_rr(i) + lin_r(i);
    lemma_sum_add(h, inf_rr, lin_r);
    let p2 = |i: int| p1(i) + f(i);
    lemma_sum_add(h, p1, f);
    assert forall|i: int| 0 <= i < h implies #[trigger] g(i) == p2(i) by {
        lemma_bound_product(a[i], a[i + h], b[i], b[i + h], r);
    }
    lemma_sum_ext(h, g, p2);
}

/// The message of a round of the product sumcheck: `(q(1), q(∞))`.
pub open spec fn round_message(a: Seq<F128>, b: Seq<F128>) -> (F128, F128) {
    let h = a.len() / 2;
    (
        sum(h, |i: int| a[i + h] * b[i + h]),
        sum(h, |i: int| (a[i + h] + a[i]) * (b[i + h] + b[i])),
    )
}

/// The value at `r` of the quadratic `q` with `q(0) + q(1) = claim`, `q(1) = e1`
/// and leading coefficient `einf`.
pub open spec fn round_value(claim: F128, e1: F128, einf: F128, r: F128) -> F128 {
    let e0 = claim + e1;
    let c1 = e0 + e1 + einf;
    einf * r * r + c1 * r + e0
}

proof fn lemma_bound_product(a0: F128, a1: F128, b0: F128, b1: F128, r: F128)
    ensures
        (a0 + r * (a1 + a0)) * (b0 + r * (b1 + b0)) == ((a1 + a0) * (b1 + b0)) * r * r + ((a0 * b0
            + a1 * b1) + (a1 + a0) * (b1 + b0)) * r + a0 * b0,
{
    let (da, db) = (a1 + a0, b1 + b0);
    lemma_mul_commutes(r, da);
    lemma_mul_commutes(r, db);
    let (x, y) = (da * r, db * r);
    // (a0 + x)(b0 + y) = a0 b0 + a0 y + x b0 + x y
    lemma_mul_distributes(b0 + y, a0, x);
    lemma_mul_distributes(a0, b0, y);
    lemma_mul_distributes(x, b0, y);
    // x y = da db r r
    lemma_mul_interchange(da, r, db, r);
    lemma_mul_associates(da * db, r, r);
    // a0 y + x b0 = (a0 db + da b0) r
    lemma_mul_associates(a0, db, r);
    lemma_mul_commutes(x, b0);
    lemma_mul_associates(b0, da, r);
    lemma_mul_commutes(b0, da);
    lemma_mul_distributes(r, a0 * db, da * b0);
    // a0 db + da b0 = a0 b0 + a1 b1 + da db
    lemma_mul_distributes(a0, b1, b0);
    lemma_mul_distributes(b0, a1, a0);
    lemma_mul_distributes(db, a1, a0);
    lemma_mul_distributes(a1, b1, b0);
    let (p, q, s, t) = (a0 * b0, a1 * b1, a0 * b1, a1 * b0);
    assert(a0 * db == s + p);
    assert(da * b0 == t + p);
    assert(da * db == (q + t) + (s + p));
    lemma_add_rules(s, p, t, p);
    lemma_add_rules(p, s, t, t);
    lemma_add_rules(p, t, p, p);
    lemma_add_rules(q, t, s, p);
    lemma_add_rules(q, s, t, p);
    lemma_add_rules(p, q, q + t, s + p);
    lemma_add_rules(p + q, q + t, s + p, p);
    lemma_add_rules(p, t, s, p);
    lemma_add_rules(q, p, t, p);
    assert((p + q) + ((q + t) + (s + p)) == (s + p) + (t + p)) by {
        lemma_add_rules(p, q, q + t, s + p);
        lemma_add_rules(q, t, s + p, s);
        lemma_add_rules(q, t + (s + p), t, t);
        lemma_add_rules(p, t, s, p);
        lemma_add_rules(s, p, t, p);
        lemma_add_rules(t, s + p, p, p);
        lemma_add_rules(p, t + (s + p), t, t);
        lemma_add_rules(s + p, t, p, p);
    }
    // regroup
    let (u, v, w) = (a0 * y, x * b0, x * y);
    lemma_add_rules(p, u, v + w, p);
    lemma_add_rules(u, v, w, p);
    lemma_add_rules(u + v, w, p, p);
    lemma_add_rules(p, w + (u + v), p, p);
}

/// `eq(x, y) = Π_j (1 + x[j] + y[j])`: the value at `y` of the multilinear
/// polynomial whose table is that of the weights of `x`.
pub fn eq_eval(x: &[F128], y: &[F128]) -> (out: F128)
    requires
        x@.len() == y@.len(),
    ensures
        out == mle(eq_table(x@), y@),
{
    let n: usize = x.len();
    let mut out = F128::one();
    let mut i: usize = 0;
    proof {
        lemma_eq_eval_empty();
        assert(x@.take(0) =~= Seq::<F128>::empty());
        assert(y@.take(0) =~= Seq::<F128>::empty());
    }
    while i < n
        invariant
            i <= n,
            n == x@.len(),
            n == y@.len(),
            out == mle(eq_table(x@.take(i as int)), y@.take(i as int)),
        decreases n - i,
    {
        proof {
            assert(x@.take(i + 1) =~= x@.take(i as int).push(x@[i as int]));
            assert(y@.take(i + 1) =~= y@.take(i as int).push(y@[i as int]));
            lemma_eq_eval_push(
                x@.take(i as int),
                y@.take(i as int),
                x@[i as int],
                y@[i as int],
            );
        }
        out = out * (F128::one() + x[i] + y[i]);
        i = i + 1;
    }
    proof {
        assert(x@.take(n as int) =~= x@);
        assert(y@.take(n as int) =~= y@);
    }
    out
}

pub proof fn lemma_eq_eval_empty()
    ensures
        mle(eq_table(Seq::<F128>::empty()), Seq::<F128>::empty()) == F128::one(),
{
    lemma2_to64();
    let e = eq_table(Seq::<F128>::empty());
    let f = |i: int| e[i] * e[i];
    assert(sum(1, f) == sum(0, f) + f(0));
    lemma_mul_units(F128::one());
    lemma_add_zero(F128::one());
}

/// One more pair of coordinates.
pub proof fn lemma_eq_eval_push(x: Seq<F128>, y: Seq<F128>, a: F128, b: F128)
    requires
        x.len() == y.len(),
    ensures
        mle(eq_table(x.push(a)), y.push(b)) == mle(eq_table(x), y) * (F128::one() + a + b),
{
    let n = pow2(x.len());
    lemma_pow2_unfold(x.len() + 1);
    let (ex, ey) = (eq_table(x), eq_table(y));
    let (ex2, ey2) = (eq_table(x.push(a)), eq_table(y.push(b)));
    let f = |i: int| ex2[i] * ey2[i];
    lemma_sum_split(n, n, f);
    let upper = |i: int| f(n + i);
    lemma_sum_add(n, f, upper);
    let both = |i: int| f(i) + upper(i);
    let g = |i: int| ex[i] * ey[i];
    let c = F128::one() + a + b;
    let scaled = |i: int| g(i) * c;
    let (oa, ob) = (F128::one() + a, F128::one() + b);
    assert(oa * ob + a * b == c) by {
        lemma_mul_distributes(oa, F128::one(), b);
        lemma_mul_units(oa);
        lemma_mul_commutes(oa, b);
        lemma_mul_distributes(b, F128::one(), a);
        lemma_mul_units(b);
        lemma_mul_commutes(b, a);
        let ab = a * b;
        lemma_add_rules(oa, b + ab, ab, ab);
        lemma_add_rules(b, ab, ab, ab);
    }
    assert forall|i: int| 0 <= i < n implies #[trigger] both(i) == scaled(i) by {
        lemma_eq_weight_push(x, a, i as nat);
        lemma_eq_weight_push(y, b, i as nat);
        lemma_mul_interchange(ex[i], oa, ey[i], ob);
        lemma_mul_interchange(ex[i], a, ey[i], b);
        lemma_mul_distributes(g(i), oa * ob, a * b);
    }
    lemma_sum_ext(n, both, scaled);
    lemma_sum_scale(n, c, g);
}

} // verus!
