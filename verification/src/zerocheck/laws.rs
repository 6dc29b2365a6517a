//! What the weights of evaluation promise: they interpolate.
use vstd::arithmetic::power2::{lemma2_to64, lemma_pow2_unfold, pow2};
use vstd::prelude::*;
use crate::algebra::{
    lemma_sum_add, lemma_sum_ext, lemma_sum_scale, lemma_sum_split, lemma_sum_swap, sum,
};
use crate::field::gf2_128::{
    lemma_add_rules, lemma_add_zero, lemma_mul_associates, lemma_mul_cancels, lemma_mul_commutes,
    lemma_mul_distributes, lemma_mul_interchange, lemma_mul_inverse, lemma_mul_units,
    lemma_no_zero_divisors,
};
use crate::field::phi8::{lemma_phi8_injective, phi8_spec};
use crate::field::{F128, F8};
use crate::index::{index_bit, lemma_high_bit};
use crate::r1cs::laws::{bit_value, lemma_one_term};
use crate::zerocheck::multilinear::{
    eq_table, eq_weight, lagrange_table, lemma_eq_weight_push, lemma_small_powers, mle, node,
    node_product,
};

verus! {

// ---------------------------------------------------------------------------
// Polynomials in one variable
// ---------------------------------------------------------------------------

/// `z^d`.
pub open spec fn power(z: F128, d: nat) -> F128
    decreases d,
{
    if d == 0 {
        F128::one()
    } else {
        z * power(z, (d - 1) as nat)
    }
}

/// The value at `z` of the polynomial with the given coefficients, the constant one first.
pub open spec fn poly_value(coefficients: Seq<F128>, z: F128) -> F128 {
    sum(coefficients.len(), |d: int| coefficients[d] * power(z, d as nat))
}

/// `Π_{m < n} (z + φ_8(m))`.
spec fn vanishing(z: F128, n: nat) -> F128 {
    node_product(z, -1, n)
}

/// The denominator of the weight of node `j` among the first `n`.
spec fn denominator(j: int, n: nat) -> F128 {
    node_product(node(j), j, n)
}

/// The weight of node `j` among the first `n`.
spec fn weight_among(n: nat, z: F128, j: int) -> F128 {
    node_product(z, j, n) * denominator(j, n).inverse()
}

proof fn lemma_nodes_differ(i: int, j: int)
    requires
        0 <= i < 256,
        0 <= j < 256,
        i != j,
    ensures
        node(i) + node(j) != F128::zero(),
{
    if node(i) + node(j) == F128::zero() {
        lemma_add_rules(node(i), node(j), node(j), node(j));
        lemma_add_rules(node(j), node(j), node(j), node(j));
        lemma_phi8_injective(F8(i as u8), F8(j as u8));
    }
}

/// The product vanishes at each of its nodes.
proof fn lemma_product_vanishes(m: int, skip: int, n: nat)
    requires
        0 <= m < n,
        m != skip,
    ensures
        node_product(node(m), skip, n) == F128::zero(),
    decreases n,
{
    if m == n - 1 {
        lemma_add_rules(node(m), node(m), node(m), node(m));
        lemma_mul_units(node_product(node(m), skip, (n - 1) as nat));
    } else {
        lemma_product_vanishes(m, skip, (n - 1) as nat);
        lemma_mul_units(node(m) + node(n - 1));
    }
}

/// The product over other nodes does not vanish at a node.
proof fn lemma_product_at_other_node(j: int, skip: int, n: nat)
    requires
        0 <= j < 256,
        n <= 256,
        skip == j || j >= n,
    ensures
        node_product(node(j), skip, n) != F128::zero(),
    decreases n,
{
    if n == 0 {
        crate::field::gf2_128::lemma_poly_of_units();
    } else {
        lemma_product_at_other_node(j, skip, (n - 1) as nat);
        if n - 1 != skip {
            lemma_nodes_differ(j, n - 1);
            if node_product(node(j), skip, n) == F128::zero() {
                lemma_no_zero_divisors(
                    node_product(node(j), skip, (n - 1) as nat),
                    node(j) + node(n - 1),
                );
            }
        }
    }
}

/// Nothing is skipped where the index is not among the nodes.
proof fn lemma_nothing_skipped(z: F128, skip: int, n: nat)
    requires
        skip < 0 || skip >= n,
    ensures
        node_product(z, skip, n) == vanishing(z, n),
    decreases n,
{
    if n > 0 {
        lemma_nothing_skipped(z, skip, (n - 1) as nat);
    }
}

/// The factor that is left out.
proof fn lemma_skipped_factor(z: F128, j: int, n: nat)
    requires
        0 <= j < n,
    ensures
        node_product(z, j, n) * (z + node(j)) == vanishing(z, n),
    decreases n,
{
    let p = node_product(z, j, (n - 1) as nat);
    if j == n - 1 {
        lemma_nothing_skipped(z, j, (n - 1) as nat);
    } else {
        lemma_skipped_factor(z, j, (n - 1) as nat);
        let (a, b) = (z + node(n - 1), z + node(j));
        lemma_mul_associates(p, a, b);
        lemma_mul_commutes(a, b);
        lemma_mul_associates(p, b, a);
    }
}

proof fn lemma_inverse_of_product(a: F128, b: F128)
    requires
        a != F128::zero(),
        b != F128::zero(),
    ensures
        a * b != F128::zero(),
        (a * b).inverse() == a.inverse() * b.inverse(),
{
    if a * b == F128::zero() {
        lemma_no_zero_divisors(a, b);
    }
    lemma_mul_inverse(a);
    lemma_mul_inverse(b);
    lemma_mul_inverse(a * b);
    lemma_mul_interchange(a, b, a.inverse(), b.inverse());
    lemma_mul_units(F128::one());
    lemma_mul_cancels(a * b, (a * b).inverse(), a.inverse() * b.inverse());
}

/// A weight is one at its own node and zero at the others.
proof fn lemma_weight_at_node(n: nat, i: int, j: int)
    requires
        n <= 256,
        0 <= i < n,
        0 <= j < n,
    ensures
        weight_among(n, node(i), j) == bit_value(i == j),
{
    if i == j {
        lemma_product_at_other_node(j, j, n);
        lemma_mul_inverse(denominator(j, n));
    } else {
        lemma_product_vanishes(i, j, n);
        lemma_mul_units(denominator(j, n).inverse());
    }
}

/// `(z + x_j) · w_j(z) = W(z) / d_j`.
proof fn lemma_weight_times_factor(n: nat, z: F128, j: int)
    requires
        0 <= j < n,
    ensures
        (z + node(j)) * weight_among(n, z, j) == vanishing(z, n) * denominator(j, n).inverse(),
{
    lemma_skipped_factor(z, j, n);
    let (f, p, d) = (z + node(j), node_product(z, j, n), denominator(j, n).inverse());
    lemma_mul_associates(f, p, d);
    lemma_mul_commutes(f, p);
}

/// The weights of one more node.
proof fn lemma_weight_of_more(n: nat, z: F128, j: int)
    requires
        n < 256,
        0 <= j < n,
    ensures
        weight_among(n + 1, z, j) == vanishing(z, n) * denominator(j, n + 1).inverse()
            + weight_among(n, z, j),
{
    let (a, b) = (denominator(j, n), node(j) + node(n as int));
    let (p, q, c) = (node_product(z, j, n), z + node(n as int), z + node(j));
    lemma_product_at_other_node(j, j, n);
    lemma_nodes_differ(j, n as int);
    lemma_inverse_of_product(a, b);
    lemma_mul_inverse(b);
    let (x, y) = (a.inverse(), b.inverse());
    assert(denominator(j, n + 1) == a * b);
    assert(weight_among(n + 1, z, j) == (p * q) * (x * y));
    // q = c + b
    lemma_add_rules(z, node(j), node(j), node(n as int));
    lemma_add_rules(z + node(j), node(j), node(n as int), node(n as int));
    assert(q == c + b);
    lemma_mul_distributes(p, c, b);
    lemma_mul_distributes(x * y, p * c, p * b);
    lemma_skipped_factor(z, j, n);
    lemma_mul_interchange(p, b, x, y);
    lemma_mul_units(p * x);
}

// ---------------------------------------------------------------------------
// Powers are interpolated
// ---------------------------------------------------------------------------

spec fn power_term(n: nat, z: F128, d: nat) -> spec_fn(int) -> F128 {
    |j: int| power(node(j), d) * weight_among(n, z, j)
}

spec fn difference_term(n: nat, d: nat) -> spec_fn(int) -> F128 {
    |j: int| power(node(j), d) * denominator(j, n).inverse()
}

/// Interpolating with one more node adds a multiple of the vanishing polynomial.
proof fn lemma_newton_step(n: nat, z: F128, d: nat)
    requires
        n < 256,
    ensures
        sum(n + 1, power_term(n + 1, z, d)) == sum(n, power_term(n, z, d)) + vanishing(z, n) * sum(
            n + 1,
            difference_term(n + 1, d),
        ),
{
    let w = vanishing(z, n);
    let (f, g, h) = (
        power_term(n + 1, z, d),
        power_term(n, z, d),
        difference_term(n + 1, d),
    );
    let wh = |j: int| w * h(j);
    let both = |j: int| g(j) + wh(j);
    assert forall|j: int| 0 <= j < n implies #[trigger] f(j) == both(j) by {
        lemma_weight_of_more(n, z, j);
        let (p, e) = (power(node(j), d), denominator(j, n + 1).inverse());
        lemma_mul_distributes(p, w * e, weight_among(n, z, j));
        lemma_mul_associates(p, w, e);
        lemma_mul_commutes(p, w);
        lemma_mul_associates(w, p, e);
        lemma_add_rules(w * (p * e), g(j), g(j), g(j));
    }
    lemma_sum_ext(n, f, both);
    lemma_sum_add(n, g, wh);
    lemma_sum_scale(n + 1, w, h);
    let last = n as int;
    assert(f(last) == wh(last)) by {
        lemma_nothing_skipped(z, last, n);
        assert(node_product(z, last, n + 1) == node_product(z, last, n));
        let (p, e) = (power(node(last), d), denominator(last, n + 1).inverse());
        lemma_mul_associates(p, w, e);
        lemma_mul_commutes(p, w);
        lemma_mul_associates(w, p, e);
    }
    lemma_add_rules(sum(n, g), sum(n, wh), wh(last), wh(last));
}

/// A power below the last node's number has no difference.
proof fn lemma_difference_vanishes(n: nat, d: nat)
    requires
        d < n < 256,
    ensures
        sum(n + 1, difference_term(n + 1, d)) == F128::zero(),
    decreases n, 1nat, 0nat,
{
    let x = node(n as int);
    lemma_newton_step(n, x, d);
    lemma_powers_interpolate(n, x, d);
    let f = power_term(n + 1, x, d);
    let g = |j: int| bit_value(n == j) * power(node(j), d);
    assert forall|j: int| 0 <= j < n + 1 implies #[trigger] f(j) == g(j) by {
        lemma_weight_at_node(n + 1, n as int, j);
        lemma_mul_commutes(power(node(j), d), bit_value(n == j));
    }
    lemma_sum_ext(n + 1, f, g);
    let h = |j: int| power(node(j), d);
    lemma_one_term(n + 1, n as int, h);
    lemma_sum_ext(n + 1, g, |j: int| bit_value(n == j) * h(j));
    let (p, w, s) = (
        power(x, d),
        vanishing(x, n),
        sum(n + 1, difference_term(n + 1, d)),
    );
    assert(p == p + w * s);
    lemma_add_rules(p, w * s, p, p);
    lemma_add_rules(p, p, p, p);
    assert(w * s == F128::zero());
    lemma_nothing_skipped(x, n as int, n);
    lemma_product_at_other_node(n as int, n as int, n);
    lemma_no_zero_divisors(w, s);
}

proof fn lemma_powers_interpolate(n: nat, z: F128, d: nat)
    requires
        d < n <= 256,
    ensures
        sum(n, power_term(n, z, d)) == power(z, d),
    decreases n, 0nat, d,
{
    let f = power_term(n, z, d);
    if n == 1 {
        assert(sum(1, f) == sum(0, f) + f(0));
        assert(node_product(z, 0, 1) == node_product(z, 0, 0));
        assert(node_product(node(0), 0, 1) == node_product(node(0), 0, 0));
        crate::field::gf2_128::lemma_poly_of_units();
        lemma_mul_inverse(F128::one());
        lemma_mul_units(F128::one().inverse());
        lemma_mul_units(F128::one());
        lemma_add_zero(F128::one());
        lemma_add_rules(F128::one(), F128::zero(), F128::zero(), F128::zero());
    } else if d < n - 1 {
        let m = (n - 1) as nat;
        lemma_newton_step(m, z, d);
        lemma_powers_interpolate(m, z, d);
        lemma_difference_vanishes(m, d);
        lemma_mul_units(vanishing(z, m));
        lemma_add_zero(power(z, d));
    } else {
        let e = (d - 1) as nat;
        lemma_powers_interpolate(n, z, e);
        lemma_difference_vanishes(e + 1, e);
        let g = power_term(n, z, e);
        let h = difference_term(n, e);
        let w = vanishing(z, n);
        let (zg, wh) = (|j: int| z * g(j), |j: int| w * h(j));
        let both = |j: int| zg(j) + wh(j);
        assert forall|j: int| 0 <= j < n implies #[trigger] f(j) == both(j) by {
            let (x, p, v, q) = (
                node(j),
                power(node(j), e),
                weight_among(n, z, j),
                denominator(j, n).inverse(),
            );
            lemma_weight_times_factor(n, z, j);
            // x = z + (z + x)
            lemma_add_rules(z, x, x, x);
            lemma_mul_distributes(v, z, z + x);
            assert(x * v == z * v + w * q);
            lemma_mul_commutes(x, p);
            lemma_mul_associates(p, x, v);
            lemma_mul_distributes(p, z * v, w * q);
            lemma_mul_associates(p, z, v);
            lemma_mul_commutes(p, z);
            lemma_mul_associates(z, p, v);
            lemma_mul_associates(p, w, q);
            lemma_mul_commutes(p, w);
            lemma_mul_associates(w, p, q);
        }
        lemma_sum_ext(n, f, both);
        lemma_sum_add(n, zg, wh);
        lemma_sum_scale(n, z, g);
        lemma_sum_scale(n, w, h);
        assert(n == e + 2);
        assert(sum(n, h) == F128::zero());
        lemma_mul_units(w);
        lemma_add_zero(z * power(z, e));
    }
}

// ---------------------------------------------------------------------------
// The laws of the weights
// ---------------------------------------------------------------------------

/// The weights of a univariate-skip coordinate interpolate: at a node they are one for that
/// node and zero for the others, at every point they add up to one, and the values of a
/// polynomial with no more coefficients than there are nodes, weighted, give its value at the
/// point.
pub proof fn lemma_lagrange_weights_interpolate(
    k_skip: nat,
    z: F128,
    coefficients: Seq<F128>,
)
    requires
        k_skip <= 8,
        coefficients.len() <= pow2(k_skip),
    ensures
        lagrange_table(k_skip, z).len() == pow2(k_skip),
        forall|i: int, j: int|
            0 <= i < pow2(k_skip) && 0 <= j < pow2(k_skip) ==> #[trigger] lagrange_table(
                k_skip,
                phi8_spec(F8(i as u8)),
            )[j] == (if i == j {
                F128::one()
            } else {
                F128::zero()
            }),
        sum(pow2(k_skip), |j: int| lagrange_table(k_skip, z)[j]) == F128::one(),
        sum(
            pow2(k_skip),
            |j: int|
                poly_value(coefficients, phi8_spec(F8(j as u8))) * lagrange_table(k_skip, z)[j],
        ) == poly_value(coefficients, z),
{
    lemma_small_powers(k_skip);
    let n = pow2(k_skip);
    let t = lagrange_table(k_skip, z);
    assert forall|i: int, j: int| 0 <= i < n && 0 <= j < n implies #[trigger] lagrange_table(
        k_skip,
        phi8_spec(F8(i as u8)),
    )[j] == bit_value(i == j) by {
        lemma_weight_at_node(n, i, j);
        assert(node(i) == phi8_spec(F8(i as u8)));
    }
    // A constant polynomial.
    let ones = |j: int| t[j];
    assert forall|j: int| 0 <= j < n implies #[trigger] ones(j) == power_term(n, z, 0)(j) by {
        assert(t[j] == weight_among(n, z, j));
        lemma_mul_units(t[j]);
    }
    lemma_sum_ext(n, ones, power_term(n, z, 0));
    lemma_powers_interpolate(n, z, 0);
    // All coefficients.
    let c = coefficients;
    let cell = |j: int, d: int| (c[d] * power(node(j), d as nat)) * t[j];
    let rows = |j: int| sum(c.len(), |d: int| cell(j, d));
    let cols = |d: int| sum(n, |j: int| cell(j, d));
    let f = |j: int| poly_value(c, phi8_spec(F8(j as u8))) * t[j];
    assert forall|j: int| 0 <= j < n implies #[trigger] f(j) == rows(j) by {
        let g = |d: int| c[d] * power(node(j), d as nat);
        lemma_sum_scale(c.len(), t[j], g);
        lemma_sum_ext(c.len(), |d: int| g(d) * t[j], |d: int| cell(j, d));
    }
    lemma_sum_ext(n, f, rows);
    lemma_sum_swap(n, c.len(), cell);
    let want = |d: int| c[d] * power(z, d as nat);
    assert forall|d: int| 0 <= d < c.len() implies #[trigger] cols(d) == want(d) by {
        let g = power_term(n, z, d as nat);
        lemma_powers_interpolate(n, z, d as nat);
        lemma_sum_scale(n, c[d], g);
        let (x, y) = (|j: int| c[d] * g(j), |j: int| cell(j, d));
        assert forall|j: int| 0 <= j < n implies #[trigger] x(j) == y(j) by {
            assert(t[j] == weight_among(n, z, j));
            lemma_mul_associates(c[d], power(node(j), d as nat), t[j]);
        }
        lemma_sum_ext(n, x, y);
    }
    lemma_sum_ext(c.len(), cols, want);
}

// ---------------------------------------------------------------------------
// Multilinear polynomials
// ---------------------------------------------------------------------------

/// The corner number `i` of the cube: coordinate `j` is bit `j` of `i`.
pub open spec fn corner(n: nat, i: nat) -> Seq<F128> {
    Seq::new(
        n,
        |j: int|
            if index_bit(i, j as nat) {
                F128::one()
            } else {
                F128::zero()
            },
    )
}

/// The weight of a corner is one at the corner itself and zero at the others.
pub proof fn lemma_eq_weight_at_corner(n: nat, i: nat, j: nat)
    requires
        i < pow2(n),
        j < pow2(n),
    ensures
        eq_weight(corner(n, i), j) == bit_value(i == j),
    decreases n,
{
    lemma2_to64();
    if n > 0 {
        let m = (n - 1) as nat;
        let h = pow2(m);
        lemma_pow2_unfold(n);
        let b = i >= h;
        let (i0, j0) = (
            if b {
                (i - h) as nat
            } else {
                i
            },
            if j >= h {
                (j - h) as nat
            } else {
                j
            },
        );
        let r = bit_value(b);
        assert(corner(n, i) =~= corner(m, i0).push(r)) by {
            assert forall|q: int| 0 <= q < n implies #[trigger] corner(n, i)[q] == corner(
                m,
                i0,
            ).push(r)[q] by {
                lemma_high_bit(i0, m, q as nat);
            }
        }
        lemma_eq_weight_at_corner(m, i0, j0);
        lemma_eq_weight_push(corner(m, i0), r, j0);
        let e = bit_value(i0 == j0);
        lemma_mul_units(e);
        lemma_add_rules(F128::one(), F128::zero(), F128::zero(), F128::zero());
    }
}

/// The multilinear polynomial of a table takes the table's entries at the corners, and is of
/// degree one in its last variable, whose two halves of the table are its values at zero
/// and at one.
pub proof fn lemma_mle_extends_table(values: Seq<F128>, point: Seq<F128>, r: F128, i: nat)
    requires
        values.len() == pow2(point.len() + 1),
        i < values.len(),
    ensures
        mle(values, corner(point.len() + 1, i)) == values[i as int],
        mle(values, point.push(r)) == (F128::one() + r) * mle(
            values.take(pow2(point.len()) as int),
            point,
        ) + r * mle(values.skip(pow2(point.len()) as int), point),
{
    let n = point.len() + 1;
    let h = pow2(point.len());
    lemma_pow2_unfold(n);
    let at = |j: int| values[j] * eq_table(corner(n, i))[j];
    let one = |j: int| bit_value(i == j) * values[j];
    assert forall|j: int| 0 <= j < values.len() implies #[trigger] at(j) == one(j) by {
        lemma_eq_weight_at_corner(n, i, j as nat);
        lemma_mul_commutes(values[j], bit_value(i == j));
    }
    lemma_sum_ext(values.len(), at, one);
    let v = |j: int| values[j];
    lemma_one_term(values.len(), i as int, v);
    lemma_sum_ext(values.len(), one, |j: int| bit_value(i as int == j) * v(j));
    // The halves.
    let (lo, hi) = (values.take(h as int), values.skip(h as int));
    let f = |j: int| values[j] * eq_table(point.push(r))[j];
    lemma_sum_split(h, h, f);
    let (g0, g1) = (|j: int| lo[j] * eq_table(point)[j], |j: int| hi[j] * eq_table(point)[j]);
    let c = F128::one() + r;
    let (s0, s1) = (|j: int| c * g0(j), |j: int| r * g1(j));
    let f1 = |j: int| f(h + j);
    assert forall|j: int| 0 <= j < h implies #[trigger] f(j) == s0(j) by {
        lemma_eq_weight_push(point, r, j as nat);
        let e = eq_weight(point, j as nat);
        lemma_mul_associates(values[j], e, c);
        lemma_mul_commutes(values[j] * e, c);
    }
    assert forall|j: int| 0 <= j < h implies #[trigger] f1(j) == s1(j) by {
        lemma_eq_weight_push(point, r, j as nat);
        let e = eq_weight(point, j as nat);
        lemma_mul_associates(hi[j], e, r);
        lemma_mul_commutes(hi[j] * e, r);
    }
    lemma_sum_ext(h, f, s0);
    lemma_sum_ext(h, f1, s1);
    lemma_sum_scale(h, c, g0);
    lemma_sum_scale(h, r, g1);
}

} // verus!
