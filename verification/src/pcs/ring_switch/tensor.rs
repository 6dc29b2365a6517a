//! Evaluating the switched table without building it.
//!
//! The table's value at a point is read off the tensor `Σ_j eq(x, j) ⊗
//! eq(q, j)`, held as 128 elements: element `u` is the sum of `eq(q, j)` over
//! the `j` for which coordinate `u` of `eq(x, j)` is set. A further pair of
//! coordinates maps it by a linear step, so the work is in the number of
//! coordinates and not in the size of the table.
use vstd::arithmetic::power2::{lemma2_to64, lemma_pow2_unfold, pow2};
use vstd::prelude::*;
use crate::algebra::{
    lemma_sum_add, lemma_sum_ext, lemma_sum_scale, lemma_sum_split, lemma_sum_swap,
    lemma_sum_zero, sum,
};
use crate::field::gf2_128::{
    lemma_add_rules, lemma_add_zero, lemma_mul_distributes, lemma_mul_units,
};
use crate::field::F128;
use crate::index::{bit_is_set, index_bit};
use crate::lincheck::laws::lemma_parity_is_sum;
use crate::pcs::pack::element_bit;
use crate::pcs::ring_switch::laws::{
    lemma_coordinate_of_sum, lemma_element_is_monomials, lemma_sum_coordinate,
    lemma_switched_table_value,
};
use crate::pcs::ring_switch::{
    bit_term, coordinate, lemma_bit_term, lemma_zero_bits, monomial, partial_evaluation,
    partial_evaluations, row_term, switched_table,
};
use crate::r1cs::laws::bit_value;
use crate::r1cs::{lemma_parity_ext, parity};
use crate::zerocheck::multilinear::{eq_table, lemma_eq_weight_push, mle};

verus! {

pub open spec fn shifted_term(t: Seq<F128>, x: F128, u: int) -> spec_fn(int) -> F128 {
    |w: int| t[w] * bit_value(element_bit(monomial(w) * x, u))
}

/// Element `u` of the tensor whose left factors are multiplied by `x`.
pub open spec fn shifted(t: Seq<F128>, x: F128, u: int) -> F128 {
    sum(128, shifted_term(t, x, u))
}

/// The tensor with one more pair of coordinates.
proof fn lemma_tensor_push(x: Seq<F128>, q: Seq<F128>, xi: F128, qi: F128, u: int)
    requires
        x.len() == q.len(),
        0 <= u < 128,
    ensures
        ({
            let t = partial_evaluations(eq_table(x), eq_table(q));
            partial_evaluation(eq_table(x.push(xi)), eq_table(q.push(qi)), u) == t[u] * (F128::one()
                + qi) + shifted(t, xi, u)
        }),
{
    let n = pow2(x.len());
    let (ex, eqq) = (eq_table(x), eq_table(q));
    let (ex2, eq2) = (eq_table(x.push(xi)), eq_table(q.push(qi)));
    let t = partial_evaluations(ex, eqq);
    lemma_pow2_unfold(x.len() + 1);
    let f = row_term(ex2, eq2, u);
    lemma_sum_split(n, n, f);
    let upper = |j: int| f(n + j);
    lemma_sum_add(n, f, upper);
    let both = |j: int| f(j) + upper(j);
    let one_q = F128::one() + qi;
    let a = row_term(ex, eqq, u);
    let b = |j: int| eqq[j] * bit_value(element_bit(ex[j] * xi, u));
    let scaled = |j: int| a(j) * one_q;
    let split = |j: int| scaled(j) + b(j);
    assert forall|j: int| 0 <= j < n implies #[trigger] both(j) == split(j) by {
        lemma_eq_weight_push(x, xi, j as nat);
        lemma_eq_weight_push(q, qi, j as nat);
        let (e, w) = (ex[j], eqq[j]);
        lemma_mul_distributes(e, F128::one(), xi);
        lemma_mul_units(e);
        lemma_sum_coordinate(e, e * xi, u);
        lemma_pair_case(w, qi, element_bit(e, u), element_bit(e * xi, u));
    }
    lemma_sum_ext(n, both, split);
    lemma_sum_scale(n, one_q, a);
    lemma_sum_add(n, scaled, b);
    // Multiplying by `xi` acts on the coordinates.
    let m = |j: int, w: int|
        eqq[j] * bit_value(element_bit(ex[j], w) && element_bit(monomial(w) * xi, u));
    let rows = |j: int| sum(128, |w: int| m(j, w));
    let cols = |w: int| sum(n, |j: int| m(j, w));
    assert forall|j: int| 0 <= j < n implies #[trigger] b(j) == rows(j) by {
        lemma_product_coordinate(ex[j], xi, u);
        let p = |w: int| element_bit(ex[j], w) && element_bit(monomial(w) * xi, u);
        lemma_parity_is_sum(128, p);
        let v = |w: int| bit_value(p(w));
        lemma_sum_scale(128, eqq[j], v);
        lemma_sum_ext(128, |w: int| eqq[j] * v(w), |w: int| m(j, w));
    }
    lemma_sum_ext(n, b, rows);
    lemma_sum_swap(n, 128, m);
    let s = shifted_term(t, xi, u);
    assert forall|w: int| 0 <= w < 128 implies #[trigger] s(w) == cols(w) by {
        let c = element_bit(monomial(w) * xi, u);
        let g = row_term(ex, eqq, w);
        lemma_bit_term(t[w], c);
        let mw = |j: int| m(j, w);
        if c {
            assert forall|j: int| 0 <= j < n implies #[trigger] mw(j) == g(j) by {}
            lemma_sum_ext(n, mw, g);
        } else {
            assert forall|j: int| 0 <= j < n implies #[trigger] mw(j) == F128::zero() by {
                lemma_mul_units(eqq[j]);
            }
            lemma_sum_zero(n, mw);
        }
    }
    lemma_sum_ext(128, s, cols);
}

/// The two corners of a new pair of coordinates.
proof fn lemma_pair_case(w: F128, q: F128, a: bool, b: bool)
    ensures
        (w * (F128::one() + q)) * bit_value(a != b) + (w * q) * bit_value(b) == (w * bit_value(a))
            * (F128::one() + q) + w * bit_value(b),
{
    let one_q = F128::one() + q;
    lemma_bit_term(w * one_q, a != b);
    lemma_bit_term(w * q, b);
    lemma_bit_term(w, a);
    lemma_bit_term(w, b);
    lemma_mul_units(one_q);
    lemma_mul_units(w);
    lemma_mul_distributes(w, F128::one(), q);
    let wq = w * q;
    lemma_add_zero(w * one_q);
    lemma_add_zero(F128::zero());
    lemma_add_rules(w, wq, wq, w);
    lemma_add_rules(w, wq, w, w);
    lemma_add_rules(F128::zero(), wq, wq, w);
    lemma_add_zero(w);
    lemma_add_zero(wq);
    crate::field::gf2_128::lemma_add_self(w);
    crate::field::gf2_128::lemma_add_self(wq);
    crate::field::gf2_128::lemma_add_commutes(w + wq, w);
    crate::field::gf2_128::lemma_add_associates(w, w, wq);
    crate::field::gf2_128::lemma_add_associates(w, wq, wq);
    crate::field::gf2_128::lemma_add_commutes(F128::zero(), wq);
    crate::field::gf2_128::lemma_add_commutes(F128::zero(), w);
}

/// The coordinates of a product, from those of the left factor.
proof fn lemma_product_coordinate(e: F128, x: F128, u: int)
    requires
        0 <= u < 128,
    ensures
        element_bit(e * x, u) == parity(
            128,
            |w: int| element_bit(e, w) && element_bit(monomial(w) * x, u),
        ),
{
    let ms = Seq::new(128, |v: int| monomial(v));
    lemma_element_is_monomials(e);
    let f = bit_term(e, ms);
    lemma_sum_scale(128, x, f);
    let g = |w: int| f(w) * x;
    lemma_coordinate_of_sum(128, g, u);
    let p = |w: int| element_bit(g(w), u);
    let r = |w: int| element_bit(e, w) && element_bit(monomial(w) * x, u);
    assert forall|w: int| 0 <= w < 128 implies #[trigger] p(w) == r(w) by {
        lemma_bit_term(monomial(w), element_bit(e, w));
        lemma_mul_units(x);
        lemma_zero_bits(u);
    }
    lemma_parity_ext(128, p, r);
}

/// Evaluate at `challenges` the switched table of the point `x`, from the
/// weights of its columns.
pub fn eval_rs_eq(x: &[F128], challenges: &[F128], eq_r_dprime: &[F128]) -> (out: F128)
    requires
        x@.len() == challenges@.len(),
        eq_r_dprime@.len() == 128,
    ensures
        out == mle(switched_table(eq_table(x@), eq_r_dprime@), challenges@),
{
    let t = eval_rs_eq_prefix(x, challenges);
    proof {
        lemma_switched_table_value(x@, challenges@, eq_r_dprime@);
        lemma_sum_ext(
            128,
            weighted_term(t@, eq_r_dprime@),
            |u: int| partial_evaluation(eq_table(x@), eq_table(challenges@), u) * eq_r_dprime@[u],
        );
    }
    weighted(&t, eq_r_dprime)
}

/// The tensor of the first coordinates of a point and of the challenges.
pub fn eval_rs_eq_prefix(x: &[F128], challenges: &[F128]) -> (t: Vec<F128>)
    requires
        x@.len() == challenges@.len(),
    ensures
        t@.len() == 128,
        t@ == partial_evaluations(eq_table(x@), eq_table(challenges@)),
{
    let mut t: Vec<F128> = Vec::with_capacity(128);
    t.push(F128::one());
    t.resize(128, F128::zero());
    let ghost none = Seq::<F128>::empty();
    proof {
        assert(t@[0] == t@.subrange(0, 1)[0]);
        lemma_tensor_start(t@);
        assert(none + x@ =~= x@);
        assert(none + challenges@ =~= challenges@);
    }
    extended(t, x, challenges)
}

/// The value of the switched table, from the tensor of the first coordinates, the
/// coordinates of the point that remain, and as many challenges that are the bits of
/// `y`, least significant first.
pub fn eval_rs_eq_finish_from_prefix_binary_q(
    prefix: &Vec<F128>,
    x: &[F128],
    y: usize,
    eq_r_dprime: &[F128],
) -> (out: F128)
    requires
        prefix@.len() == 128,
        x@.len() < usize::BITS,
        eq_r_dprime@.len() == 128,
    ensures
        forall|xs: Seq<F128>, qs: Seq<F128>|
            xs.len() == qs.len() && prefix@ == #[trigger] partial_evaluations(
                eq_table(xs),
                eq_table(qs),
            ) ==> out == mle(
                switched_table(eq_table(xs + x@), eq_r_dprime@),
                qs + bit_values(y as nat, x@.len()),
            ),
{
    let q = bits_as_field(y, x.len());
    let t = extended(prefix.clone(), x, &q);
    proof {
        assert forall|xs: Seq<F128>, qs: Seq<F128>|
            xs.len() == qs.len() && prefix@ == #[trigger] partial_evaluations(
                eq_table(xs),
                eq_table(qs),
            ) implies t@ == partial_evaluations(eq_table(xs + x@), eq_table(qs + q@)) by {}
        assert forall|xs: Seq<F128>, qs: Seq<F128>|
            xs.len() == qs.len() && prefix@ == #[trigger] partial_evaluations(
                eq_table(xs),
                eq_table(qs),
            ) implies mle(switched_table(eq_table(xs + x@), eq_r_dprime@), qs + q@) == sum(
            128,
            weighted_term(t@, eq_r_dprime@),
        ) by {
            lemma_switched_table_value(xs + x@, qs + q@, eq_r_dprime@);
            lemma_sum_ext(
                128,
                weighted_term(t@, eq_r_dprime@),
                |u: int|
                    partial_evaluation(eq_table(xs + x@), eq_table(qs + q@), u) * eq_r_dprime@[u],
            );
        }
    }
    weighted(&t, eq_r_dprime)
}

/// The bits of `y` as field elements, least significant first.
pub open spec fn bit_values(y: nat, n: nat) -> Seq<F128> {
    Seq::new(n, |j: int| bit_value(index_bit(y, j as nat)))
}

/// The bits of `y` as field elements, least significant first.
pub fn bits_as_field(y: usize, n: usize) -> (q: Vec<F128>)
    requires
        n < usize::BITS,
    ensures
        q@ == bit_values(y as nat, n as nat),
{
    let mut q: Vec<F128> = Vec::with_capacity(n);
    let mut j: usize = 0;
    while j < n
        invariant
            j <= n,
            n < usize::BITS,
            q@ == bit_values(y as nat, j as nat),
        decreases n - j,
    {
        q.push(
            if bit_is_set(y, j) {
                F128::one()
            } else {
                F128::zero()
            },
        );
        j = j + 1;
        assert(q@ =~= bit_values(y as nat, j as nat));
    }
    q
}

/// The tensor with further pairs of coordinates.
fn extended(start: Vec<F128>, x: &[F128], challenges: &[F128]) -> (t: Vec<F128>)
    requires
        start@.len() == 128,
        x@.len() == challenges@.len(),
    ensures
        t@.len() == 128,
        forall|xs: Seq<F128>, qs: Seq<F128>|
            xs.len() == qs.len() && start@ == #[trigger] partial_evaluations(
                eq_table(xs),
                eq_table(qs),
            ) ==> t@ == partial_evaluations(eq_table(xs + x@), eq_table(qs + challenges@)),
{
    let n: usize = x.len();
    let ghost first = start@;
    let mut t = start;
    proof {
        assert forall|xs: Seq<F128>, qs: Seq<F128>|
            xs.len() == qs.len() && first == #[trigger] partial_evaluations(
                eq_table(xs),
                eq_table(qs),
            ) implies t@ == partial_evaluations(
            eq_table(xs + x@.take(0)),
            eq_table(qs + challenges@.take(0)),
        ) by {
            assert(xs + x@.take(0) =~= xs);
            assert(qs + challenges@.take(0) =~= qs);
        }
    }
    let mut i: usize = 0;
    while i < n
        invariant
            i <= n,
            n == x@.len(),
            n == challenges@.len(),
            t@.len() == 128,
            forall|xs: Seq<F128>, qs: Seq<F128>|
                xs.len() == qs.len() && first == #[trigger] partial_evaluations(
                    eq_table(xs),
                    eq_table(qs),
                ) ==> t@ == partial_evaluations(
                    eq_table(xs + x@.take(i as int)),
                    eq_table(qs + challenges@.take(i as int)),
                ),
        decreases n - i,
    {
        let (xi, qi) = (x[i], challenges[i]);
        let next = tensor_step(&t, xi, qi);
        proof {
            assert forall|xs: Seq<F128>, qs: Seq<F128>|
                xs.len() == qs.len() && first == #[trigger] partial_evaluations(
                    eq_table(xs),
                    eq_table(qs),
                ) implies next@ == partial_evaluations(
                eq_table(xs + x@.take(i + 1)),
                eq_table(qs + challenges@.take(i + 1)),
            ) by {
                let (a, b) = (xs + x@.take(i as int), qs + challenges@.take(i as int));
                assert(xs + x@.take(i + 1) =~= a.push(xi));
                assert(qs + challenges@.take(i + 1) =~= b.push(qi));
                let goal = partial_evaluations(eq_table(a.push(xi)), eq_table(b.push(qi)));
                assert forall|u: int| 0 <= u < 128 implies #[trigger] next@[u] == goal[u] by {
                    lemma_tensor_push(a, b, xi, qi, u);
                }
                assert(next@ =~= goal);
            }
        }
        t = next;
        i = i + 1;
    }
    proof {
        assert(x@.take(n as int) =~= x@);
        assert(challenges@.take(n as int) =~= challenges@);
    }
    t
}

pub open spec fn weighted_term(t: Seq<F128>, w: Seq<F128>) -> spec_fn(int) -> F128 {
    |u: int| t[u] * w[u]
}

/// The sum of the elements of a tensor by the weights of the columns.
fn weighted(t: &Vec<F128>, eq_r_dprime: &[F128]) -> (acc: F128)
    requires
        t@.len() == 128,
        eq_r_dprime@.len() == 128,
    ensures
        acc == sum(128, weighted_term(t@, eq_r_dprime@)),
{
    let ghost f = weighted_term(t@, eq_r_dprime@);
    let mut acc = F128::zero();
    let mut u: usize = 0;
    while u < 128
        invariant
            u <= 128,
            t@.len() == 128,
            eq_r_dprime@.len() == 128,
            f == weighted_term(t@, eq_r_dprime@),
            acc == sum(u as nat, f),
        decreases 128 - u,
    {
        assert(sum((u + 1) as nat, f) == sum(u as nat, f) + f(u as int));
        acc = acc + t[u] * eq_r_dprime[u];
        u = u + 1;
    }
    acc
}

/// The tensor of no coordinates.
proof fn lemma_tensor_start(t: Seq<F128>)
    requires
        t.len() == 128,
        t[0] == F128::one(),
        forall|u: int| 1 <= u < 128 ==> #[trigger] t[u] == F128::zero(),
    ensures
        t == partial_evaluations(
            eq_table(Seq::<F128>::empty()),
            eq_table(Seq::<F128>::empty()),
        ),
{
    lemma2_to64();
    let e = eq_table(Seq::<F128>::empty());
    assert(e.len() == 1 && e[0] == F128::one());
    crate::pcs::ring_switch::laws::lemma_monomial_words(0);
    assert(F128::one() == monomial(0));
    assert forall|u: int| 0 <= u < 128 implies #[trigger] partial_evaluations(e, e)[u] == t[u] by {
        let f = row_term(e, e, u);
        assert(sum(1, f) == sum(0, f) + f(0));
        crate::pcs::ring_switch::laws::lemma_monomial_bits(0, u);
        lemma_bit_term(F128::one(), element_bit(F128::one(), u));
        lemma_add_rules(F128::one(), F128::zero(), F128::one(), F128::one());
        lemma_add_zero(F128::zero());
        lemma_add_zero(F128::one());
        crate::field::gf2_128::lemma_add_commutes(F128::zero(), F128::one());
    }
    assert(t =~= partial_evaluations(e, e));
}

/// One pair of coordinates more.
fn tensor_step(t: &Vec<F128>, x: F128, q: F128) -> (next: Vec<F128>)
    requires
        t@.len() == 128,
    ensures
        next@.len() == 128,
        forall|u: int|
            0 <= u < 128 ==> #[trigger] next@[u] == t@[u] * (F128::one() + q) + shifted(t@, x, u),
{
    // The images of the monomials.
    let mut images: Vec<F128> = Vec::with_capacity(128);
    let mut w: usize = 0;
    while w < 128
        invariant
            w <= 128,
            images@.len() == w,
            forall|k: int| 0 <= k < w ==> #[trigger] images@[k] == monomial(k) * x,
        decreases 128 - w,
    {
        let m = if w < 64 {
            F128 { lo: 1u64 << (w as u64), hi: 0 }
        } else {
            F128 { lo: 0, hi: 1u64 << ((w - 64) as u64) }
        };
        assert(m == monomial(w as int));
        images.push(m * x);
        w = w + 1;
    }
    let one_q = F128::one() + q;
    let mut next: Vec<F128> = Vec::with_capacity(128);
    let mut u: usize = 0;
    while u < 128
        invariant
            u <= 128,
            t@.len() == 128,
            images@.len() == 128,
            forall|k: int| 0 <= k < 128 ==> #[trigger] images@[k] == monomial(k) * x,
            one_q == F128::one() + q,
            next@.len() == u,
            forall|k: int|
                0 <= k < u ==> #[trigger] next@[k] == t@[k] * (F128::one() + q) + shifted(
                    t@,
                    x,
                    k,
                ),
        decreases 128 - u,
    {
        let ghost f = shifted_term(t@, x, u as int);
        let mut acc = F128::zero();
        let mut w: usize = 0;
        while w < 128
            invariant
                w <= 128,
                u < 128,
                t@.len() == 128,
                images@.len() == 128,
                forall|k: int| 0 <= k < 128 ==> #[trigger] images@[k] == monomial(k) * x,
                f == shifted_term(t@, x, u as int),
                acc == sum(w as nat, f),
            decreases 128 - w,
        {
            proof {
                assert(sum((w + 1) as nat, f) == sum(w as nat, f) + f(w as int));
                lemma_bit_term(t@[w as int], element_bit(images@[w as int], u as int));
                lemma_add_zero(acc);
            }
            if coordinate(images[w], u) {
                acc = acc + t[w];
            }
            w = w + 1;
        }
        next.push(t[u] * one_q + acc);
        u = u + 1;
    }
    next
}

} // verus!
