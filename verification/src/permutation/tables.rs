//! The tables that the permutation check works on.
use vstd::arithmetic::power2::{lemma2_to64, lemma_pow2_unfold, pow2};
use vstd::prelude::*;
use crate::algebra::{
    lemma_sum_add, lemma_sum_ext, lemma_sum_scale, lemma_sum_split, sum,
};
use crate::bits::lemma_bit64_ops;
use crate::challenger::Challenger;
use crate::field::gf2_128::{
    lemma_add_rules, lemma_add_zero, lemma_mul_associates, lemma_mul_commutes,
    lemma_mul_distributes, lemma_mul_inverse, lemma_mul_units, lemma_no_zero_divisors,
};
use crate::field::F128;
use crate::index::lemma_high_bit;
use crate::pcs::fold::fold_low;
use crate::pcs::pack::{element_bit, lemma_element_extensional};
use crate::pcs::ring_switch::laws::{lemma_monomial_bits, lemma_sum_coordinate};
use crate::pcs::ring_switch::{lemma_bit64_is_index_bit, monomial};
use crate::permutation::{
    after_values, chunk_has_zero, inverses, product_entry, product_table, tag, tags, v_points,
    Mix, Tables, CHUNK,
};
use crate::zerocheck::multilinear::{eq_table, eq_weight, lemma_eq_weight_push, mle};

verus! {

// ---------------------------------------------------------------------------
// Inversion
// ---------------------------------------------------------------------------

/// `q[from]·…·q[to − 1]`.
pub open spec fn run_product(q: Seq<F128>, from: int, to: int) -> F128
    decreases to - from,
{
    if to <= from {
        F128::one()
    } else {
        run_product(q, from, to - 1) * q[to - 1]
    }
}

/// A product with a zero among its factors vanishes, one without does not.
pub proof fn lemma_run_product(q: Seq<F128>, from: int, to: int)
    requires
        0 <= from <= to <= q.len(),
    ensures
        (exists|j: int| from <= j < to && #[trigger] q[j] == F128::zero()) <==> run_product(
            q,
            from,
            to,
        ) == F128::zero(),
    decreases to - from,
{
    if from < to {
        lemma_run_product(q, from, to - 1);
        let x = run_product(q, from, to - 1);
        lemma_mul_units(q[to - 1]);
        lemma_mul_units(x);
        if x * q[to - 1] == F128::zero() {
            lemma_no_zero_divisors(x, q[to - 1]);
        }
        if x == F128::zero() {
            let j = choose|j: int| from <= j < to - 1 && #[trigger] q[j] == F128::zero();
            assert(q[j] == F128::zero());
        }
    } else {
        lemma_one_is_not_zero();
    }
}

proof fn lemma_one_is_not_zero()
    ensures
        F128::one() != F128::zero(),
{
}

/// Montgomery batch inverse of the values `from..to`, appended to `out`: one
/// inversion and about three multiplications per value.
fn invert_chunk(values: &[F128], from: usize, to: usize, out: &mut Vec<F128>)
    requires
        from <= to <= values@.len(),
        old(out)@.len() == from,
    ensures
        final(out)@.len() == to,
        forall|i: int| 0 <= i < from ==> #[trigger] final(out)@[i] == old(out)@[i],
        forall|i: int|
            from <= i < to ==> #[trigger] final(out)@[i] == (if run_product(
                values@,
                from as int,
                to as int,
            ) == F128::zero() {
                F128::zero()
            } else {
                values@[i].inverse()
            }),
{
    let ghost q = values@;
    let ghost (lo, hi) = (from as int, to as int);
    let mut acc = F128::one();
    let mut i: usize = from;
    // Prefix products.
    while i < to
        invariant
            from <= i <= to,
            to <= values@.len(),
            q == values@,
            lo == from,
            acc == run_product(q, lo, i as int),
            out@.len() == i,
            forall|k: int| 0 <= k < from ==> #[trigger] out@[k] == old(out)@[k],
            forall|k: int| from <= k < i ==> #[trigger] out@[k] == run_product(q, lo, k),
        decreases to - i,
    {
        out.push(acc);
        acc = acc * values[i];
        i = i + 1;
    }
    let ghost all = run_product(q, lo, hi);
    acc = acc.inv();
    proof {
        lemma_mul_units(F128::one());
        lemma_mul_units(acc);
        if all != F128::zero() {
            lemma_mul_inverse(all);
        }
    }
    let mut i: usize = to;
    while i > from
        invariant
            from <= i <= to,
            to <= values@.len(),
            q == values@,
            lo == from,
            hi == to,
            all == run_product(q, lo, hi),
            all == F128::zero() ==> acc == F128::zero(),
            all != F128::zero() ==> run_product(q, lo, i as int) * acc == F128::one(),
            out@.len() == to,
            forall|k: int| 0 <= k < from ==> #[trigger] out@[k] == old(out)@[k],
            forall|k: int| from <= k < i ==> #[trigger] out@[k] == run_product(q, lo, k),
            forall|k: int|
                i <= k < to ==> #[trigger] out@[k] == (if all == F128::zero() {
                    F128::zero()
                } else {
                    q[k].inverse()
                }),
        decreases i - from,
    {
        let ghost x = run_product(q, lo, i - 1);
        let ghost y = q[i - 1];
        proof {
            // x·y·acc = 1, so x·acc inverts y and y·acc inverts x.
            lemma_mul_units(x);
            lemma_mul_units(y);
            if all != F128::zero() {
                lemma_mul_associates(x, y, acc);
                lemma_mul_commutes(y, acc);
                lemma_mul_associates(x, acc, y);
                lemma_mul_commutes(x * acc, y);
                lemma_inverse_unique(y, x * acc);
            }
        }
        i = i - 1;
        out[i] = out[i] * acc;
        acc = acc * values[i];
    }
}

/// What multiplies to one is the inverse.
pub proof fn lemma_inverse_unique(a: F128, b: F128)
    requires
        a * b == F128::one(),
    ensures
        b == a.inverse(),
        a != F128::zero(),
{
    lemma_mul_units(b);
    lemma_one_is_not_zero();
    if a == F128::zero() {
        lemma_mul_commutes(a, b);
    }
    lemma_mul_inverse(a);
    crate::field::gf2_128::lemma_mul_cancels(a, b, a.inverse());
}

/// Montgomery batch inverse, chunk by chunk: each chunk runs its own
/// Montgomery pass independently, at the cost of one extra inversion per chunk.
pub fn batch_inverse(values: &[F128]) -> (out: Vec<F128>)
    ensures
        out@ == inverses(values@),
{
    let n: usize = values.len();
    let ghost q = values@;
    let mut out: Vec<F128> = Vec::with_capacity(n);
    let mut from: usize = 0;
    while from < n
        invariant
            from <= n,
            n == values@.len(),
            q == values@,
            from as int % (CHUNK as int) == 0 || from == n,
            out@.len() == from,
            forall|i: int| 0 <= i < from ==> #[trigger] out@[i] == inverses(q)[i],
        decreases n - from,
    {
        let to: usize = if n - from > CHUNK {
            from + CHUNK
        } else {
            n
        };
        let ghost before = out@;
        invert_chunk(values, from, to, &mut out);
        proof {
            lemma_run_product(q, from as int, to as int);
            assert forall|i: int| 0 <= i < to implies #[trigger] out@[i] == inverses(q)[i] by {
                if i < from {
                    assert(out@[i] == before[i]);
                    assert(before[i] == inverses(q)[i]);
                } else {
                    assert(chunk_has_zero(q, i) <==> run_product(q, from as int, to as int)
                        == F128::zero()) by {
                        if chunk_has_zero(q, i) {
                            let j = choose|j: int|
                                0 <= j < q.len() && j / (CHUNK as int) == i / (CHUNK as int)
                                    && #[trigger] q[j] == F128::zero();
                            assert(from <= j < to);
                            assert(q[j] == F128::zero());
                        }
                        if run_product(q, from as int, to as int) == F128::zero() {
                            let j = choose|j: int|
                                from <= j < to && #[trigger] q[j] == F128::zero();
                            assert(j / (CHUNK as int) == i / (CHUNK as int));
                            assert(q[j] == F128::zero());
                        }
                    }
                }
            }
        }
        from = to;
    }
    assert(out@ =~= inverses(q));
    out
}

// ---------------------------------------------------------------------------
// Tags
// ---------------------------------------------------------------------------

/// Basis for the identity tag `s_id`: `basis[i]` is the field element with bit
/// `i` set. `{basis_i}` are GF(2)-linearly independent, so `s_id` is injective
/// on `B_μ` (requires `μ ≤ 128`).
pub fn s_id_basis(mu: usize) -> (basis: Vec<F128>)
    requires
        mu <= 128,
    ensures
        basis@ == Seq::new(mu as nat, |i: int| monomial(i)),
{
    let mut basis: Vec<F128> = Vec::with_capacity(mu);
    let mut i: usize = 0;
    while i < mu
        invariant
            i <= mu <= 128,
            basis@.len() == i,
            forall|k: int| 0 <= k < i ==> #[trigger] basis@[k] == monomial(k),
        decreases mu - i,
    {
        if i < 64 {
            basis.push(F128::new(1u64 << (i as u64), 0));
        } else {
            basis.push(F128::new(0, 1u64 << ((i - 64) as u64)));
        }
        i = i + 1;
    }
    assert(basis@ =~= Seq::new(mu as nat, |i: int| monomial(i)));
    basis
}

pub open spec fn tag_term(point: Seq<F128>) -> spec_fn(int) -> F128 {
    |k: int| monomial(k) * point[k]
}

/// `Σ_k basis_k · point_k`.
pub open spec fn tag_value(point: Seq<F128>) -> F128 {
    sum(point.len(), tag_term(point))
}

pub open spec fn linear_term(basis: Seq<F128>, rho: Seq<F128>) -> spec_fn(int) -> F128 {
    |i: int| basis[i] * rho[i]
}

/// Closed-form MLE of `s_id` at `ρ`: `Σ_i basis_i · ρ_i` (it is GF(2)-linear).
pub fn s_id_eval(basis: &[F128], rho: &[F128]) -> (out: F128)
    requires
        basis@.len() == rho@.len(),
    ensures
        out == sum(rho@.len(), linear_term(basis@, rho@)),
        basis@ == Seq::new(rho@.len(), |i: int| monomial(i)) ==> out == tag_value(rho@),
{
    let n: usize = rho.len();
    let ghost f = linear_term(basis@, rho@);
    let mut acc = F128::zero();
    let mut i: usize = 0;
    while i < n
        invariant
            i <= n,
            n == rho@.len(),
            n == basis@.len(),
            f == linear_term(basis@, rho@),
            acc == sum(i as nat, f),
        decreases n - i,
    {
        assert(sum((i + 1) as nat, f) == sum(i as nat, f) + f(i as int));
        acc = acc + basis[i] * rho[i];
        i = i + 1;
    }
    proof {
        if basis@ == Seq::new(rho@.len(), |i: int| monomial(i)) {
            crate::algebra::lemma_sum_ext(rho@.len(), f, tag_term(rho@));
        }
    }
    acc
}

/// The tag of an index in the upper half.
proof fn lemma_tag_high(x: nat, k: nat)
    requires
        x < pow2(k),
        k < 64,
    ensures
        tag((x + pow2(k)) as int) == tag(x as int) + monomial(k as int),
{
    lemma_pow2_unfold(k + 1);
    lemma2_to64();
    if k + 1 < 64 {
        vstd::arithmetic::power2::lemma_pow2_strictly_increases(k + 1, 64);
    }
    let y = (x + pow2(k)) as nat;
    assert(y <= u64::MAX);
    let (a, b) = (tag(y as int), tag(x as int) + monomial(k as int));
    assert forall|i: int| 0 <= i < 128 implies #[trigger] element_bit(a, i) == element_bit(b, i) by {
        lemma_sum_coordinate(tag(x as int), monomial(k as int), i);
        lemma_monomial_bits(k as int, i);
        if i < 64 {
            lemma_bit64_is_index_bit(y as u64, i);
            lemma_bit64_is_index_bit(x as u64, i);
            lemma_high_bit(x, k, i as nat);
        } else {
            lemma_bit64_ops(0, 0, i - 64);
        }
    }
    lemma_element_extensional(a, b);
}

/// The tags are a linear function of the index bits, so their multilinear
/// polynomial is that function of the point.
pub proof fn lemma_tag_value(point: Seq<F128>)
    requires
        point.len() <= 64,
    ensures
        mle(tags(pow2(point.len())), point) == tag_value(point),
    decreases point.len(),
{
    lemma2_to64();
    if point.len() == 0 {
        let f = |i: int| tags(1)[i] * eq_table(point)[i];
        assert(sum(1, f) == sum(0, f) + f(0));
        lemma_mul_units(tag(0));
        lemma_add_zero(F128::zero());
    } else {
        let rest = point.drop_last();
        let k = rest.len();
        let r = point.last();
        let n = pow2(k);
        lemma_pow2_unfold(k + 1);
        lemma_tag_value(rest);
        assert(point =~= rest.push(r));
        let m = monomial(k as int);
        let e = eq_table(rest);
        let f = |i: int| tags(pow2(k + 1))[i] * eq_table(point)[i];
        lemma_sum_split(n, n, f);
        let upper = |i: int| f(n + i);
        lemma_sum_add(n, f, upper);
        let both = |i: int| f(i) + upper(i);
        let low = |i: int| tags(n)[i] * e[i];
        let one = |i: int| eq_weight(rest, i as nat);
        let shift = |i: int| (m * r) * one(i);
        let split = |i: int| low(i) + shift(i);
        assert forall|i: int| 0 <= i < n implies #[trigger] both(i) == split(i) by {
            lemma_eq_weight_push(rest, r, i as nat);
            lemma_tag_high(i as nat, k);
            let (t, w) = (tag(i), e[i]);
            let one_r = F128::one() + r;
            // t·w(1+r) + (t+m)·(w·r) == t·w + m·r·w
            lemma_mul_distributes(w, F128::one(), r);
            lemma_mul_units(w);
            lemma_mul_distributes(t, w, w * r);
            lemma_mul_commutes(t + m, w * r);
            lemma_mul_distributes(w * r, t, m);
            lemma_mul_commutes(w * r, t);
            lemma_mul_commutes(w * r, m);
            lemma_mul_commutes(w, r);
            lemma_mul_associates(m, r, w);
            let (tw, twr, mwr) = (t * w, t * (w * r), m * (w * r));
            lemma_add_rules(tw, twr, twr, mwr);
            lemma_add_rules(twr, mwr, twr, mwr);
            lemma_add_rules(tw + twr, twr, mwr, mwr);
        }
        lemma_sum_ext(n, both, split);
        lemma_sum_add(n, low, shift);
        lemma_sum_scale(n, m * r, one);
        crate::zerocheck::multilinear::lemma_eq_weights_sum_to_one(rest);
        lemma_mul_units(m * r);
        let g = tag_term(point);
        lemma_sum_ext(k, tag_term(rest), g);
        assert(sum(k + 1, g) == sum(k, g) + g(k as int));
    }
}

// ---------------------------------------------------------------------------
// The grand product
// ---------------------------------------------------------------------------

/// Build the grand-product poly `v` of size `2N` from leaves `h` (size `N`):
/// `v[i]=h[i]` for `i<N`, `v[N+i]=v[2i]·v[2i+1]`, and `v[2N-1]=0` (padding, so
/// the recursion holds trivially at `i=N-1`). The total product is `v[2N-2]`.
pub fn build_grand_product(h: &[F128]) -> (v: Vec<F128>)
    requires
        h@.len() >= 2,
        2 * h@.len() <= usize::MAX,
    ensures
        v@ == product_table(h@),
{
    let n: usize = h.len();
    let mut v: Vec<F128> = vstd::slice::slice_to_vec(h);
    let mut i: usize = 0;
    while i < n - 1
        invariant
            i <= n - 1,
            n == h@.len(),
            n >= 2,
            2 * n <= usize::MAX,
            v@.len() == n + i,
            forall|k: int| 0 <= k < n + i ==> #[trigger] v@[k] == product_entry(h@, k),
        decreases n - 1 - i,
    {
        let x = v[2 * i] * v[2 * i + 1];
        v.push(x);
        i = i + 1;
    }
    v.push(F128::zero());
    assert(v@ =~= product_table(h@));
    v
}

// ---------------------------------------------------------------------------
// Folding
// ---------------------------------------------------------------------------

/// Bind the low variable at `ρ`: `u[x] ← u[2x]·(1+ρ) + u[2x+1]·ρ`, halving `u`.
pub fn fold_in_place(u: &mut Vec<F128>, rho: F128)
    ensures
        final(u)@ == fold_low(old(u)@, rho),
{
    let ghost start = u@;
    let len: usize = u.len();
    let half: usize = len / 2;
    let one_minus = F128::one() + rho;
    let mut x: usize = 0;
    while x < half
        invariant
            x <= half,
            half == len / 2,
            len == u@.len(),
            len == start.len(),
            one_minus == F128::one() + rho,
            forall|k: int| 0 <= k < x ==> #[trigger] u@[k] == fold_low(start, rho)[k],
            forall|k: int| x <= k < len ==> #[trigger] u@[k] == start[k],
        decreases half - x,
    {
        proof {
            lemma_interpolate(start[2 * x], start[2 * x + 1], rho);
        }
        u[x] = u[2 * x] * one_minus + u[2 * x + 1] * rho;
        x = x + 1;
    }
    u.truncate(half);
    assert(u@ =~= fold_low(start, rho));
}

/// The two ways to write the line through two values.
pub proof fn lemma_interpolate(a: F128, b: F128, r: F128)
    ensures
        a * (F128::one() + r) + b * r == a + r * (a + b),
{
    lemma_mul_distributes(a, F128::one(), r);
    lemma_mul_units(a);
    lemma_mul_distributes(r, a, b);
    lemma_mul_commutes(r, a);
    lemma_mul_commutes(r, b);
    lemma_add_rules(a, a * r, b * r, b * r);
}

// ---------------------------------------------------------------------------
// The round message
// ---------------------------------------------------------------------------

/// `G(1)` on the pair `x`, without the tag's part.
pub open spec fn core_value(t: Tables, m: Mix, x: int) -> F128 {
    let i = 2 * x + 1;
    (t.v0[i] * t.q(m, i) + (t.f[i] + m.gamma)) + m.alpha * (t.c[i] + t.a[i] * t.b[i])
}

pub open spec fn core_term(t: Tables, m: Mix, e: Seq<F128>) -> spec_fn(int) -> F128 {
    |x: int| e[x] * core_value(t, m, x)
}

/// Core of one eq-weighted sumcheck round message for the batched relation
/// `F = F_A + α·F_B`, **excluding** the affine `s_id` contribution to `G(1)`
/// (the prover adds that in closed form). Returns `(G(1)_core, G(∞))`.
/// The current variable's eq factor is applied by the verifier.
/// Low-bit binding: index `2x'` is `(·,0)`, `2x'+1` is `(·,1)`. `v0` is the leaf
/// view `v(0,·)` (first half of `v`), used by relation A.
pub(crate) fn round_message(
    f: &Vec<F128>,
    g: &Vec<F128>,
    s_sig: &Vec<F128>,
    a: &Vec<F128>,
    b: &Vec<F128>,
    c: &Vec<F128>,
    v0: &Vec<F128>,
    beta: F128,
    gamma: F128,
    alpha: F128,
    eq: &Vec<F128>,
    Ghost(t): Ghost<Tables>,
) -> (out: (F128, F128))
    requires
        t.f == f@,
        t.g == g@,
        t.s_sigma == s_sig@,
        t.a == a@,
        t.b == b@,
        t.c == c@,
        t.v0 == v0@,
        f@.len() == 2 * eq@.len(),
        g@.len() == f@.len(),
        s_sig@.len() == f@.len(),
        a@.len() == f@.len(),
        b@.len() == f@.len(),
        c@.len() == f@.len(),
        v0@.len() == f@.len(),
    ensures
        ({
            let m = Mix { beta, gamma, alpha };
            &&& out.0 == sum(eq@.len(), core_term(t, m, eq@))
            &&& out.1 == sum(eq@.len(), t.inf_term(m, eq@))
        }),
{
    let ghost m = Mix { beta, gamma, alpha };
    let ghost h1 = core_term(t, m, eq@);
    let ghost h_inf = t.inf_term(m, eq@);
    let n: usize = eq.len();
    let len: usize = f.len();
    let mut s1 = F128::zero();
    let mut s_inf = F128::zero();
    let mut x: usize = 0;
    while x < n
        invariant
            x <= n,
            n == eq@.len(),
            len == 2 * n,
            len == f@.len(),
            len == g@.len(),
            len == s_sig@.len(),
            len == a@.len(),
            len == b@.len(),
            len == c@.len(),
            len == v0@.len(),
            t.f == f@,
            t.g == g@,
            t.s_sigma == s_sig@,
            t.a == a@,
            t.b == b@,
            t.c == c@,
            t.v0 == v0@,
            m == (Mix { beta, gamma, alpha }),
            h1 == core_term(t, m, eq@),
            h_inf == t.inf_term(m, eq@),
            s1 == sum(x as nat, h1),
            s_inf == sum(x as nat, h_inf),
        decreases n - x,
    {
        let i0: usize = 2 * x;
        let i1: usize = 2 * x + 1;
        let p1 = f[i1] + gamma;
        let q0 = g[i0] + beta * s_sig[i0] + gamma;
        let q1 = g[i1] + beta * s_sig[i1] + gamma;
        // A: v(0,·)·q ⊕ p  (quadratic leaf·q, linear p).
        let l0 = v0[i0];
        let l1 = v0[i1];
        let ga1 = l1 * q1 + p1;
        let ga_inf = (l0 + l1) * (q0 + q1);
        // B: c ⊕ a·b  (quadratic a·b, linear c).
        let gb1 = c[i1] + a[i1] * b[i1];
        let gb_inf = (a[i0] + a[i1]) * (b[i0] + b[i1]);
        let el = eq[x];
        proof {
            assert(sum((x + 1) as nat, h1) == sum(x as nat, h1) + h1(x as int));
            assert(sum((x + 1) as nat, h_inf) == sum(x as nat, h_inf) + h_inf(x as int));
        }
        s1 = s1 + el * (ga1 + alpha * gb1);
        s_inf = s_inf + el * (ga_inf + alpha * gb_inf);
        x = x + 1;
    }
    (s1, s_inf)
}

// ---------------------------------------------------------------------------
// The opening points
// ---------------------------------------------------------------------------

/// The five evaluation points of `v` (each length `μ+1`) that the PCS opens, in
/// the fixed order matching `[v_x0, v_x1, v_1x, v_0x, claimed_product]`:
/// `v(ρ,0)`, `v(ρ,1)`, `v(1,ρ)`, `v(0,ρ)`, and the product root `v[2N-2]`.
/// Low bit is bound first, so the leading coord is `b₀` and the trailing coord
/// is the half-selector. The root index `2N-2` has `b₀=0` and all other bits 1.
pub fn v_open_points(rho: &[F128]) -> (out: [Vec<F128>; 5])
    ensures
        forall|k: int| 0 <= k < 5 ==> (#[trigger] out@[k])@ == v_points(rho@)[k],
{
    let mu: usize = rho.len();
    let mut x0: Vec<F128> = Vec::new();
    x0.push(F128::zero());
    let mut x1: Vec<F128> = Vec::new();
    x1.push(F128::one());
    let mut one_x: Vec<F128> = vstd::slice::slice_to_vec(rho);
    one_x.push(F128::one());
    let mut zero_x: Vec<F128> = vstd::slice::slice_to_vec(rho);
    zero_x.push(F128::zero());
    let mut root: Vec<F128> = Vec::new();
    root.push(F128::zero());
    let mut i: usize = 0;
    while i < mu
        invariant
            i <= mu,
            mu == rho@.len(),
            x0@ == seq![F128::zero()] + rho@.take(i as int),
            x1@ == seq![F128::one()] + rho@.take(i as int),
            root@ == seq![F128::zero()] + Seq::new(i as nat, |k: int| F128::one()),
        decreases mu - i,
    {
        let ghost before = (x0@, x1@, root@);
        x0.push(rho[i]);
        x1.push(rho[i]);
        root.push(F128::one());
        proof {
            assert(rho@.take(i + 1) =~= rho@.take(i as int).push(rho@[i as int]));
            assert(x0@ =~= seq![F128::zero()] + rho@.take(i + 1));
            assert(x1@ =~= seq![F128::one()] + rho@.take(i + 1));
            assert(root@ =~= seq![F128::zero()] + Seq::new((i + 1) as nat, |k: int| F128::one()));
        }
        i = i + 1;
    }
    assert(rho@.take(mu as int) =~= rho@);
    [x0, x1, one_x, zero_x, root]
}

/// Observe the evaluations, in order.
pub(crate) fn observe_evals<Ch: Challenger>(ch: &mut Ch, evals: &[F128; 7])
    ensures
        final(ch).state() == after_values::<Ch>(old(ch).state(), evals@),
{
    let ghost s = ch.state();
    let mut i: usize = 0;
    assert(evals@.take(0) =~= Seq::<F128>::empty());
    while i < 7
        invariant
            i <= 7,
            ch.state() == after_values::<Ch>(s, evals@.take(i as int)),
        decreases 7 - i,
    {
        proof {
            assert(evals@.take(i + 1).drop_last() =~= evals@.take(i as int));
            assert(evals@.take(i + 1).last() == evals@[i as int]);
        }
        ch.observe_f128(evals[i]);
        i = i + 1;
    }
    assert(evals@.take(7) =~= evals@);
}

} // verus!
