//! Finite sums over GF(2^128).
use vstd::prelude::*;
use crate::field::gf2_128::{
    lemma_add_rules, lemma_add_zero, lemma_mul_distributes, lemma_mul_units, F128,
};

verus! {

/// `Σ_{i < n} f(i)`.
pub open spec fn sum(n: nat, f: spec_fn(int) -> F128) -> F128
    decreases n,
{
    if n == 0 {
        F128::zero()
    } else {
        sum((n - 1) as nat, f) + f(n - 1)
    }
}

pub proof fn lemma_sum_ext(n: nat, f: spec_fn(int) -> F128, g: spec_fn(int) -> F128)
    requires
        forall|i: int| 0 <= i < n ==> #[trigger] f(i) == g(i),
    ensures
        sum(n, f) == sum(n, g),
    decreases n,
{
    if n > 0 {
        lemma_sum_ext((n - 1) as nat, f, g);
        assert(f(n - 1) == g(n - 1));
    }
}

pub proof fn lemma_sum_zero(n: nat, f: spec_fn(int) -> F128)
    requires
        forall|i: int| 0 <= i < n ==> #[trigger] f(i) == F128::zero(),
    ensures
        sum(n, f) == F128::zero(),
    decreases n,
{
    if n > 0 {
        lemma_sum_zero((n - 1) as nat, f);
        assert(f(n - 1) == F128::zero());
        lemma_add_zero(F128::zero());
    }
}

pub proof fn lemma_sum_add(n: nat, f: spec_fn(int) -> F128, g: spec_fn(int) -> F128)
    ensures
        sum(n, |i: int| f(i) + g(i)) == sum(n, f) + sum(n, g),
    decreases n,
{
    let h = |i: int| f(i) + g(i);
    lemma_add_zero(F128::zero());
    if n > 0 {
        let m = (n - 1) as nat;
        lemma_sum_add(m, f, g);
        lemma_add_rules(sum(m, f), sum(m, g), f(m as int), g(m as int));
        assert(h(m as int) == f(m as int) + g(m as int));
    }
}

pub proof fn lemma_sum_scale(n: nat, c: F128, f: spec_fn(int) -> F128)
    ensures
        sum(n, |i: int| c * f(i)) == c * sum(n, f),
        sum(n, |i: int| f(i) * c) == sum(n, f) * c,
    decreases n,
{
    let h = |i: int| c * f(i);
    let k = |i: int| f(i) * c;
    lemma_mul_units(c);
    if n > 0 {
        let m = (n - 1) as nat;
        lemma_sum_scale(m, c, f);
        lemma_mul_distributes(c, sum(m, f), f(m as int));
        assert(h(m as int) == c * f(m as int));
        assert(k(m as int) == f(m as int) * c);
    }
}

/// `Σ_{i < m + n} f(i) == Σ_{i < m} f(i) + Σ_{i < n} f(m + i)`.
pub proof fn lemma_sum_split(m: nat, n: nat, f: spec_fn(int) -> F128)
    ensures
        sum(m + n, f) == sum(m, f) + sum(n, |i: int| f(m + i)),
    decreases n,
{
    let g = |i: int| f(m + i);
    lemma_add_zero(sum(m, f));
    if n > 0 {
        let k = (n - 1) as nat;
        lemma_sum_split(m, k, f);
        lemma_add_rules(sum(m, f), sum(k, g), g(k as int), g(k as int));
        assert(g(k as int) == f((m + n) - 1));
    }
}

/// `Σ_{i < 2n} f(i) == Σ_{i < n} (f(2i) + f(2i + 1))`.
pub proof fn lemma_sum_pairs(n: nat, f: spec_fn(int) -> F128)
    ensures
        sum(2 * n, f) == sum(n, |i: int| f(2 * i) + f(2 * i + 1)),
    decreases n,
{
    let g = |i: int| f(2 * i) + f(2 * i + 1);
    if n > 0 {
        let k = (n - 1) as nat;
        lemma_sum_pairs(k, f);
        assert(sum(2 * n, f) == sum((2 * n - 1) as nat, f) + f(2 * n - 1));
        assert(sum((2 * n - 1) as nat, f) == sum((2 * k) as nat, f) + f((2 * k) as int));
        lemma_add_rules(sum(2 * k, f), f((2 * k) as int), f((2 * k + 1) as int), f(0));
        assert(g(k as int) == f((2 * k) as int) + f((2 * k + 1) as int));
    }
}

/// A sum in which one term grows.
pub proof fn lemma_sum_update(
    n: nat,
    f: spec_fn(int) -> F128,
    g: spec_fn(int) -> F128,
    at: int,
    d: F128,
)
    requires
        0 <= at < n,
        forall|i: int| 0 <= i < n && i != at ==> #[trigger] g(i) == f(i),
        g(at) == f(at) + d,
    ensures
        sum(n, g) == sum(n, f) + d,
    decreases n,
{
    let m = (n - 1) as nat;
    if at == m {
        lemma_sum_ext(m, g, f);
        lemma_add_rules(sum(m, f), f(at), d, d);
    } else {
        lemma_sum_update(m, f, g, at, d);
        assert(g(m as int) == f(m as int));
        lemma_add_rules(sum(m, f), d, f(m as int), d);
        lemma_add_rules(d, f(m as int), d, d);
        lemma_add_rules(sum(m, f), f(m as int), d, d);
    }
}

/// The order of a double sum does not matter.
pub proof fn lemma_sum_swap(m: nat, n: nat, f: spec_fn(int, int) -> F128)
    ensures
        sum(m, |i: int| sum(n, |j: int| f(i, j))) == sum(n, |j: int| sum(m, |i: int| f(i, j))),
    decreases m,
{
    let outer = |i: int| sum(n, |j: int| f(i, j));
    let inner = |j: int| sum(m, |i: int| f(i, j));
    if m == 0 {
        assert forall|j: int| 0 <= j < n implies #[trigger] inner(j) == F128::zero() by {}
        lemma_sum_zero(n, inner);
    } else {
        let k = (m - 1) as nat;
        lemma_sum_swap(k, n, f);
        let prev = |j: int| sum(k, |i: int| f(i, j));
        let last = |j: int| f(k as int, j);
        lemma_sum_add(n, prev, last);
        assert forall|j: int| 0 <= j < n implies #[trigger] inner(j) == prev(j) + last(j) by {
            let g = |i: int| f(i, j);
            assert(sum(m, g) == sum(k, g) + g(k as int));
        }
        lemma_sum_ext(n, inner, |j: int| prev(j) + last(j));
        let outer_k = |i: int| sum(n, |j: int| f(i, j));
        assert(outer(k as int) == sum(n, last)) by {
            lemma_sum_ext(n, |j: int| f(k as int, j), last);
        }
        lemma_sum_ext(k, outer, outer_k);
    }
}

} // verus!
