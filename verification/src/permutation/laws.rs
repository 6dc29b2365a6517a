//! What the permutation check promises.
use vstd::arithmetic::power2::{lemma2_to64, lemma_pow2_pos, lemma_pow2_unfold, pow2};
use vstd::prelude::*;
use crate::algebra::{
    lemma_sum_add, lemma_sum_ext, lemma_sum_pairs, lemma_sum_scale, lemma_sum_zero, sum,
};
use crate::challenger::Challenger;
use crate::field::gf2_128::{
    lemma_add_rules, lemma_add_zero, lemma_mul_associates, lemma_mul_commutes,
    lemma_mul_distributes, lemma_mul_inverse, lemma_mul_units,
};
use crate::field::F128;
use crate::ntt::additive_ntt_f128::AdditiveNttF128;
use crate::pcs::combine::{direct_values, PackedDirectClaim};
use crate::pcs::commit::{Commitment, ProverData};
use crate::pcs::fold::{
    fold_low, fold_low_all, lemma_eq_weight_front, lemma_fold_low_is_evaluation,
    lemma_fold_low_to_value,
};
use crate::pcs::laws::{
    committed, direct_claims_hold, lemma_batch_opening_is_accepted, lemma_combined_target,
};
use crate::pcs::open::{batch_opened, is_standard};
use crate::pcs::ring_switch::batch::views;
use crate::permutation::check::{checked_rounds, final_value, perm_verdict, round_claim};
use crate::permutation::prover::{lemma_perm_shape, tables_len};
use crate::permutation::tables::{
    lemma_interpolate, lemma_run_product, lemma_tag_value, run_product,
};
use crate::permutation::{
    after_values, beta_state, chunk_has_zero, evals, fits, fractions, gamma_state, honest_head,
    honest_pending, honest_permutation, honest_v, image_tags, instance_tables, masked,
    opening_state, opens_v, params_of, perm_challenges, perm_rounds, product_entry, product_table,
    recursion_is_feasible, strided, tags, v_challenges, v_points, v_table, v_tables, v_target,
    v_values, Mix, PendingPermutation, PermutationClaim, PermutationHead, PermutationProof, Tables,
    VerifyError,
};
use crate::zerocheck::{dense_padding, lemma_dense_is_live};
use crate::zerocheck::multilinear::{bound_top, dot, eq_table, lemma_bind_is_evaluation, mle};

verus! {

// ---------------------------------------------------------------------------
// The relation holds
// ---------------------------------------------------------------------------

/// No value of `q` vanishes: every leaf fraction is defined.
pub open spec fn all_nonzero(q: Seq<F128>) -> bool {
    forall|x: int| 0 <= x < q.len() ==> #[trigger] q[x] != F128::zero()
}

/// On the tables of an instance the relation is zero everywhere.
pub proof fn lemma_relation_vanishes(
    f: Seq<F128>,
    g: Seq<F128>,
    sigma: Seq<usize>,
    m: Mix,
    x: int,
)
    requires
        f.len() >= 2,
        g.len() == f.len(),
        sigma.len() == f.len(),
        all_nonzero(masked(g, image_tags(sigma), m.beta, m.gamma)),
        0 <= x < f.len(),
    ensures
        ({
            let v = product_table(
                fractions(
                    masked(f, tags(f.len()), m.beta, m.gamma),
                    masked(g, image_tags(sigma), m.beta, m.gamma),
                ),
            );
            instance_tables(f, g, sigma, v).relation(m, x) == F128::zero()
        }),
{
    let p = masked(f, tags(f.len()), m.beta, m.gamma);
    let q = masked(g, image_tags(sigma), m.beta, m.gamma);
    let h = fractions(p, q);
    let v = product_table(h);
    let t = instance_tables(f, g, sigma, v);
    let n = f.len() as int;
    // A: the leaf is p/q.
    assert(q[x] != F128::zero());
    assert(!chunk_has_zero(q, x)) by {
        if chunk_has_zero(q, x) {
            let j = choose|j: int|
                0 <= j < q.len() && j / (crate::permutation::CHUNK as int) == x / (
                crate::permutation::CHUNK as int) && #[trigger] q[j] == F128::zero();
            assert(q[j] != F128::zero());
        }
    }
    let inv = q[x].inverse();
    lemma_mul_inverse(q[x]);
    lemma_mul_associates(p[x], inv, q[x]);
    lemma_mul_commutes(inv, q[x]);
    lemma_mul_units(p[x]);
    assert(t.v0[x] * t.q(m, x) == p[x]);
    lemma_add_rules(p[x], p[x], p[x], p[x]);
    // B: the recursion of the product table.
    assert(t.c[x] == product_entry(h, n + x));
    assert(t.a[x] == product_entry(h, 2 * x));
    assert(t.b[x] == product_entry(h, 2 * x + 1));
    let ab = t.a[x] * t.b[x];
    lemma_mul_units(t.a[x]);
    lemma_add_rules(ab, ab, ab, ab);
    lemma_add_zero(F128::zero());
    assert(t.c[x] + ab == F128::zero());
    lemma_mul_units(m.alpha);
}

// ---------------------------------------------------------------------------
// One round
// ---------------------------------------------------------------------------

/// The quadratic with the given values at 0 and 1 and leading coefficient.
pub open spec fn quadratic(f0: F128, f1: F128, f_inf: F128, r: F128) -> F128 {
    f0 * (F128::one() + r) + f1 * r + f_inf * r * (F128::one() + r)
}

/// The product of two lines.
proof fn lemma_product_of_lines(a0: F128, a1: F128, b0: F128, b1: F128, r: F128)
    ensures
        (a0 + r * (a0 + a1)) * (b0 + r * (b0 + b1)) == quadratic(
            a0 * b0,
            a1 * b1,
            (a0 + a1) * (b0 + b1),
            r,
        ),
{
    let (da, db) = (a0 + a1, b0 + b1);
    let s = da * db;
    let rr = r * r;
    // Left: a0·b0 + r·(a0·db + da·b0) + r²·s.
    lemma_mul_distributes(a0 + r * da, b0, r * db);
    lemma_mul_distributes(b0, a0, r * da);
    lemma_mul_commutes(a0 + r * da, b0);
    lemma_mul_commutes(b0, a0);
    lemma_mul_commutes(b0, r * da);
    lemma_mul_associates(r, da, b0);
    lemma_mul_distributes(r * db, a0, r * da);
    lemma_mul_commutes(a0 + r * da, r * db);
    lemma_mul_commutes(r * db, a0);
    lemma_mul_commutes(r * db, r * da);
    lemma_mul_associates(a0, r, db);
    lemma_mul_commutes(a0, r);
    lemma_mul_associates(r, a0, db);
    crate::field::gf2_128::lemma_mul_interchange(r, da, r, db);
    let (x, y1, y2, z) = (a0 * b0, r * (da * b0), r * (a0 * db), rr * s);
    assert((a0 + r * da) * (b0 + r * db) == (x + y1) + (y2 + z));
    // a1·b1 = a0·b0 + a0·db + da·b0 + s.
    lemma_add_rules(a0, a1, a1, a1);
    lemma_add_rules(b0, b1, b1, b1);
    assert(a1 == a0 + da) by {
        lemma_add_rules(a0, a1, a0, a0);
    }
    assert(b1 == b0 + db) by {
        lemma_add_rules(b0, b1, b0, b0);
    }
    lemma_mul_distributes(a0 + da, b0, db);
    lemma_mul_distributes(b0, a0, da);
    lemma_mul_commutes(a0 + da, b0);
    lemma_mul_commutes(b0, da);
    lemma_mul_distributes(db, a0, da);
    lemma_mul_commutes(a0 + da, db);
    lemma_mul_commutes(db, a0);
    lemma_mul_commutes(db, da);
    let (u, w) = (da * b0, a0 * db);
    assert(a1 * b1 == (x + u) + (w + s));
    // Right: x(1+r) + (x+u+w+s)r + s·r·(1+r) = x + r·u + r·w + r²·s.
    let one_r = F128::one() + r;
    lemma_mul_distributes(x, F128::one(), r);
    lemma_mul_units(x);
    lemma_mul_commutes(a1 * b1, r);
    lemma_mul_distributes(r, x + u, w + s);
    lemma_mul_distributes(r, x, u);
    lemma_mul_distributes(r, w, s);
    lemma_mul_distributes(s * r, F128::one(), r);
    lemma_mul_units(s * r);
    lemma_mul_associates(s, r, r);
    lemma_mul_commutes(s, rr);
    lemma_mul_commutes(s, r);
    lemma_mul_commutes(x, r);
    let (rx, ru, rw, rs) = (r * x, r * u, r * w, r * s);
    // (x + rx) + ((rx + ru) + (rw + rs)) + (rs + z)
    lemma_add_rules(x, rx, rx + ru, rw + rs);
    lemma_add_rules(x, rx, rx, ru);
    assert((x + rx) + ((rx + ru) + (rw + rs)) == (x + ru) + (rw + rs)) by {
        lemma_add_rules(rx, ru, rw + rs, rs);
        lemma_add_rules(x + rx, rx, ru + (rw + rs), rs);
        lemma_add_rules(x, rx, ru, ru);
        lemma_add_rules(x, ru, rw + rs, rs);
    }
    assert(((x + ru) + (rw + rs)) + (rs + z) == (x + ru) + (rw + z)) by {
        lemma_add_rules(x + ru, rw + rs, rs + z, z);
        lemma_add_rules(rw, rs, rs, z);
        lemma_add_rules(rs, z, z, z);
        lemma_add_rules(rw, rs, rs + z, z);
        lemma_add_rules(rs, rs, z, z);
        lemma_add_rules(rs, z, rs, z);
    }
}

/// A line through two values, as a quadratic without leading coefficient.
proof fn lemma_line(a: F128, b: F128, r: F128)
    ensures
        a + r * (a + b) == quadratic(a, b, F128::zero(), r),
{
    lemma_interpolate(a, b, r);
    lemma_mul_units(r);
    lemma_mul_units(F128::one() + r);
    lemma_add_zero(a * (F128::one() + r) + b * r);
}

/// Sums and multiples of quadratics.
proof fn lemma_quadratic_linear(
    a: (F128, F128, F128),
    b: (F128, F128, F128),
    k: F128,
    r: F128,
)
    ensures
        quadratic(a.0, a.1, a.2, r) + quadratic(b.0, b.1, b.2, r) == quadratic(
            a.0 + b.0,
            a.1 + b.1,
            a.2 + b.2,
            r,
        ),
        k * quadratic(a.0, a.1, a.2, r) == quadratic(k * a.0, k * a.1, k * a.2, r),
{
    let c = F128::one() + r;
    lemma_mul_commutes(a.0 + b.0, c);
    lemma_mul_distributes(c, a.0, b.0);
    lemma_mul_commutes(c, a.0);
    lemma_mul_commutes(c, b.0);
    lemma_mul_commutes(a.1 + b.1, r);
    lemma_mul_distributes(r, a.1, b.1);
    lemma_mul_commutes(r, a.1);
    lemma_mul_commutes(r, b.1);
    lemma_mul_commutes(a.2 + b.2, r);
    lemma_mul_distributes(r, a.2, b.2);
    lemma_mul_commutes(r, a.2);
    lemma_mul_commutes(r, b.2);
    lemma_mul_commutes((a.2 + b.2) * r, c);
    lemma_mul_distributes(c, a.2 * r, b.2 * r);
    lemma_mul_commutes(c, a.2 * r);
    lemma_mul_commutes(c, b.2 * r);
    let (a0, a1, a2) = (a.0 * c, a.1 * r, a.2 * r * c);
    let (b0, b1, b2) = (b.0 * c, b.1 * r, b.2 * r * c);
    lemma_add_rules(a0 + a1, a2, b0 + b1, b2);
    lemma_add_rules(a0, a1, b0, b1);
    lemma_mul_distributes(k, a0 + a1, a2);
    lemma_mul_distributes(k, a0, a1);
    lemma_mul_associates(k, a.0, c);
    lemma_mul_associates(k, a.1, r);
    lemma_mul_associates(k, a.2 * r, c);
    lemma_mul_associates(k, a.2, r);
}

/// The relation on the folded tables is the quadratic of the round.
proof fn lemma_folded_relation(t: Tables, m: Mix, r: F128, n: nat, x: int)
    requires
        tables_len(t, 2 * n),
        0 <= x < n,
    ensures
        t.folded(r).relation(m, x) == quadratic(
            t.relation(m, 2 * x),
            t.relation(m, 2 * x + 1),
            t.leading(m, x),
            r,
        ),
{
    let u = t.folded(r);
    let (i, j) = (2 * x, 2 * x + 1);
    let (q0, q1) = (t.q(m, i), t.q(m, j));
    let (p0, p1) = (t.p(m, i), t.p(m, j));
    lemma_masked_line(t.g[i], t.g[j], t.s_sigma[i], t.s_sigma[j], m.beta, m.gamma, r);
    lemma_masked_line(t.f[i], t.f[j], t.s_id[i], t.s_id[j], m.beta, m.gamma, r);
    assert(u.q(m, x) == q0 + r * (q0 + q1));
    assert(u.p(m, x) == p0 + r * (p0 + p1));
    let (l0, l1) = (t.v0[i], t.v0[j]);
    lemma_product_of_lines(l0, l1, q0, q1, r);
    lemma_line(p0, p1, r);
    let la = (l0 * q0, l1 * q1, (l0 + l1) * (q0 + q1));
    lemma_quadratic_linear(la, (p0, p1, F128::zero()), m.alpha, r);
    let (a0, a1, b0, b1) = (t.a[i], t.a[j], t.b[i], t.b[j]);
    lemma_product_of_lines(a0, a1, b0, b1, r);
    lemma_line(t.c[i], t.c[j], r);
    let ab = (a0 * b0, a1 * b1, (a0 + a1) * (b0 + b1));
    lemma_quadratic_linear((t.c[i], t.c[j], F128::zero()), ab, m.alpha, r);
    lemma_add_zero(la.2);
    lemma_add_zero(ab.2);
    let bb = (t.c[i] + ab.0, t.c[j] + ab.1, ab.2);
    lemma_quadratic_linear(bb, bb, m.alpha, r);
    lemma_quadratic_linear(
        (la.0 + p0, la.1 + p1, la.2),
        (m.alpha * bb.0, m.alpha * bb.1, m.alpha * bb.2),
        m.alpha,
        r,
    );
}

/// Masking commutes with folding.
proof fn lemma_masked_line(
    f0: F128,
    f1: F128,
    s0: F128,
    s1: F128,
    beta: F128,
    gamma: F128,
    r: F128,
)
    ensures
        ({
            let (m0, m1) = (f0 + beta * s0 + gamma, f1 + beta * s1 + gamma);
            (f0 + r * (f0 + f1)) + beta * (s0 + r * (s0 + s1)) + gamma == m0 + r * (m0 + m1)
        }),
{
    let (m0, m1) = (f0 + beta * s0 + gamma, f1 + beta * s1 + gamma);
    let (b0, b1) = (beta * s0, beta * s1);
    // m0 + m1 = (f0 + f1) + (b0 + b1).
    lemma_add_rules(f0 + b0, gamma, f1 + b1, gamma);
    lemma_add_rules(gamma, gamma, gamma, gamma);
    lemma_add_rules(f0, b0, f1, b1);
    lemma_add_zero((f0 + b0) + (f1 + b1));
    assert(m0 + m1 == (f0 + f1) + (b0 + b1));
    let (df, db) = (f0 + f1, b0 + b1);
    lemma_mul_distributes(r, df, db);
    // β·(s0 + r·(s0 + s1)) = b0 + r·db.
    lemma_mul_distributes(beta, s0, r * (s0 + s1));
    lemma_mul_associates(beta, r, s0 + s1);
    lemma_mul_commutes(beta, r);
    lemma_mul_associates(r, beta, s0 + s1);
    lemma_mul_distributes(beta, s0, s1);
    // (f0 + r·df) + (b0 + r·db) + γ = (f0 + b0 + γ) + (r·df + r·db).
    lemma_add_rules(f0, r * df, b0, r * db);
    let k = r * df + r * db;
    lemma_add_rules(f0 + b0, k, gamma, gamma);
    lemma_add_rules(k, gamma, gamma, gamma);
    lemma_add_rules(f0 + b0, gamma, k, k);
}

pub open spec fn weighted_term(t: Tables, m: Mix, e: Seq<F128>) -> spec_fn(int) -> F128 {
    |x: int| e[x] * t.relation(m, x)
}

/// `Σ_x eq(rest, x) · F(x)`.
pub open spec fn weighted(t: Tables, m: Mix, rest: Seq<F128>) -> F128 {
    sum(pow2(rest.len()), weighted_term(t, m, eq_table(rest)))
}

/// One round: from the claim on the tables to the claim on the folded ones.
proof fn lemma_round(t: Tables, m: Mix, r0: F128, rest: Seq<F128>, rho: F128)
    requires
        tables_len(t, 2 * pow2(rest.len())),
        r0 != F128::one(),
    ensures
        ({
            let (g1, g_inf) = t.message(m, rest);
            round_claim(weighted(t, m, seq![r0] + rest), r0, g1, g_inf, rho) == weighted(
                t.folded(rho),
                m,
                rest,
            )
        }),
{
    let n = pow2(rest.len());
    let e = eq_table(rest);
    let full = seq![r0] + rest;
    lemma_pow2_unfold(full.len());
    let (g1, g_inf) = t.message(m, rest);
    let one_term = t.one_term(m, e);
    let zero_term = |x: int| e[x] * t.relation(m, 2 * x);
    let g0 = sum(n, zero_term);
    let c = F128::one() + r0;
    // The claim is (1 + r0)·G(0) + r0·G(1).
    let f = weighted_term(t, m, eq_table(full));
    lemma_sum_pairs(n, f);
    let pairs = |x: int| f(2 * x) + f(2 * x + 1);
    let (s0, s1) = (|x: int| c * zero_term(x), |x: int| r0 * one_term(x));
    lemma_sum_scale(n, c, zero_term);
    lemma_sum_scale(n, r0, one_term);
    lemma_sum_add(n, s0, s1);
    let both = |x: int| s0(x) + s1(x);
    assert forall|x: int| 0 <= x < n implies #[trigger] pairs(x) == both(x) by {
        lemma_eq_weight_front(rest, r0, x as nat);
        lemma_mul_associates(c, e[x], t.relation(m, 2 * x));
        lemma_mul_associates(r0, e[x], t.relation(m, 2 * x + 1));
    }
    lemma_sum_ext(n, pairs, both);
    let claim = weighted(t, m, full);
    assert(claim == c * g0 + r0 * g1);
    // So the verifier recovers G(0).
    assert(c != F128::zero()) by {
        if c == F128::zero() {
            lemma_add_rules(F128::one(), r0, r0, r0);
            lemma_add_zero(r0);
        }
    }
    lemma_add_rules(c * g0, r0 * g1, r0 * g1, r0);
    lemma_mul_commutes(c, g0);
    lemma_mul_associates(g0, c, c.inverse());
    lemma_mul_inverse(c);
    lemma_mul_units(g0);
    assert((claim + r0 * g1) * c.inverse() == g0);
    // The folded tables.
    let h = weighted_term(t.folded(rho), m, e);
    let inf_term = t.inf_term(m, e);
    lemma_sum_quadratic(n, zero_term, one_term, inf_term, h, rho, t, m, e);
}

/// Summing quadratics.
proof fn lemma_sum_quadratic(
    n: nat,
    f0: spec_fn(int) -> F128,
    f1: spec_fn(int) -> F128,
    f_inf: spec_fn(int) -> F128,
    h: spec_fn(int) -> F128,
    r: F128,
    t: Tables,
    m: Mix,
    e: Seq<F128>,
)
    requires
        tables_len(t, 2 * e.len()),
        n <= e.len(),
        f0 == (|x: int| e[x] * t.relation(m, 2 * x)),
        f1 == t.one_term(m, e),
        f_inf == t.inf_term(m, e),
        h == weighted_term(t.folded(r), m, e),
    ensures
        sum(n, h) == quadratic(sum(n, f0), sum(n, f1), sum(n, f_inf), r),
    decreases n,
{
    if n == 0 {
        lemma_mul_units(F128::one() + r);
        lemma_mul_units(r);
        lemma_add_zero(F128::zero());
    } else {
        let k = (n - 1) as nat;
        lemma_sum_quadratic(k, f0, f1, f_inf, h, r, t, m, e);
        let x = k as int;
        lemma_folded_relation(t, m, r, e.len(), x);
        let rel = (t.relation(m, 2 * x), t.relation(m, 2 * x + 1), t.leading(m, x));
        lemma_quadratic_linear(rel, rel, e[x], r);
        assert(h(x) == quadratic(f0(x), f1(x), f_inf(x), r));
        lemma_quadratic_linear(
            (sum(k, f0), sum(k, f1), sum(k, f_inf)),
            (f0(x), f1(x), f_inf(x)),
            r,
            r,
        );
    }
}

// ---------------------------------------------------------------------------
// The run
// ---------------------------------------------------------------------------

/// Earlier rounds are a part of later ones.
proof fn lemma_perm_prefix<Ch: Challenger>(
    s: Ch::State,
    tables: Tables,
    m: Mix,
    r: Seq<F128>,
    t: nat,
    n: nat,
)
    requires
        t <= n,
    ensures
        ({
            let p = perm_rounds::<Ch>(s, tables, m, r, t);
            let q = perm_rounds::<Ch>(s, tables, m, r, n);
            &&& p.messages.len() == t
            &&& q.messages.len() == n
            &&& p.messages == q.messages.take(t as int)
        }),
    decreases n,
{
    let p = perm_rounds::<Ch>(s, tables, m, r, t);
    let q = perm_rounds::<Ch>(s, tables, m, r, n);
    if n == 0 {
        assert(p.messages =~= q.messages.take(0));
    } else {
        let k = (n - 1) as nat;
        if t < n {
            lemma_perm_prefix::<Ch>(s, tables, m, r, t, k);
        } else {
            lemma_perm_prefix::<Ch>(s, tables, m, r, k, k);
        }
        assert(p.messages =~= q.messages.take(t as int));
    }
}

/// The verifier stays in lockstep with the prover, and its running claim is
/// the weighted relation on the folded tables.
proof fn lemma_lockstep<Ch: Challenger>(
    s: Ch::State,
    tables: Tables,
    m: Mix,
    r: Seq<F128>,
    rounds: Seq<(F128, F128)>,
    t: nat,
)
    requires
        t <= r.len(),
        tables_len(tables, pow2(r.len())),
        forall|x: int| 0 <= x < pow2(r.len()) ==> tables.relation(m, x) == F128::zero(),
        forall|i: int| 0 <= i < r.len() ==> #[trigger] r[i] != F128::one(),
        rounds == perm_rounds::<Ch>(s, tables, m, r, r.len()).messages,
    ensures
        ({
            let p = perm_rounds::<Ch>(s, tables, m, r, t);
            let v = checked_rounds::<Ch>(s, rounds, r, t);
            &&& v.rho == p.rho
            &&& v.state == p.state
            &&& v.claim == weighted(p.tables, m, r.subrange(t as int, r.len() as int))
        }),
    decreases t,
{
    let n = r.len();
    if t == 0 {
        assert(r.subrange(0, n as int) =~= r);
        let f = weighted_term(tables, m, eq_table(r));
        assert forall|x: int| 0 <= x < pow2(n) implies #[trigger] f(x) == F128::zero() by {
            lemma_mul_units(eq_table(r)[x]);
        }
        lemma_sum_zero(pow2(n), f);
    } else {
        let k = (t - 1) as nat;
        lemma_lockstep::<Ch>(s, tables, m, r, rounds, k);
        lemma_perm_shape::<Ch>(s, tables, m, r, n, k);
        lemma_perm_prefix::<Ch>(s, tables, m, r, t, n);
        let prev = perm_rounds::<Ch>(s, tables, m, r, k);
        let p = perm_rounds::<Ch>(s, tables, m, r, t);
        let rest = r.subrange(t as int, n as int);
        assert(r.subrange(k as int, n as int) =~= seq![r[k as int]] + rest);
        lemma_pow2_unfold((n - k) as nat);
        assert(rounds[t - 1] == p.messages[t - 1]);
        let rho = p.rho[t - 1];
        assert(r[k as int] != F128::one());
        lemma_round(prev.tables, m, r[k as int], rest, rho);
    }
}

/// The sumcheck of an honest run ends where the evaluations say.
proof fn lemma_sumcheck_passes<Ch: Challenger>(
    s: Ch::State,
    f: Seq<F128>,
    g: Seq<F128>,
    sigma: Seq<usize>,
    mu: nat,
    out: PermutationHead,
    claim: PermutationClaim,
)
    requires
        run_is_sound::<Ch>(s, f, g, sigma, mu, out),
        honest_head::<Ch>(s, f, g, sigma, mu, out, claim),
    ensures
        ({
            let pc = perm_challenges::<Ch>(s, out.v_root@, out.claimed_product, mu);
            let v = product_table(
                fractions(
                    masked(f, tags(f.len()), pc.mix.beta, pc.mix.gamma),
                    masked(g, image_tags(sigma), pc.mix.beta, pc.mix.gamma),
                ),
            );
            let p = perm_rounds::<Ch>(
                pc.state,
                instance_tables(f, g, sigma, v),
                pc.mix,
                pc.r,
                mu,
            );
            let c = checked_rounds::<Ch>(pc.state, out.rounds@, pc.r, mu);
            &&& c.claim == final_value(out, pc.mix, c.rho)
            &&& c.rho == p.rho
            &&& c.state == p.state
            &&& c.rho.len() == mu
        }),
{
    let pc = perm_challenges::<Ch>(s, out.v_root@, out.claimed_product, mu);
    Ch::lemma_challenge_count(
        Ch::after_sample(
            Ch::after_f128(
                Ch::after_bytes(Ch::after_sample(gamma_state::<Ch>(s)), out.v_root@),
                out.claimed_product,
            ),
        ),
        mu,
    );
    let m = pc.mix;
    let v = product_table(
        fractions(
            masked(f, tags(f.len()), m.beta, m.gamma),
            masked(g, image_tags(sigma), m.beta, m.gamma),
        ),
    );
    let t0 = instance_tables(f, g, sigma, v);
    let p = perm_rounds::<Ch>(pc.state, t0, m, pc.r, mu);
    lemma2_to64();
    lemma_pow2_unfold(mu);
    lemma_pow2_pos((mu - 1) as nat);
    lemma_pow2_unfold(mu + 1);
    assert forall|x: int| 0 <= x < pow2(mu) implies t0.relation(m, x) == F128::zero() by {
        lemma_relation_vanishes(f, g, sigma, m, x);
    }
    lemma_lockstep::<Ch>(pc.state, t0, m, pc.r, out.rounds@, mu);
    lemma_perm_shape::<Ch>(pc.state, t0, m, pc.r, mu, mu);
    let none = pc.r.subrange(mu as int, mu as int);
    assert(none =~= Seq::<F128>::empty());
    let h = weighted_term(p.tables, m, eq_table(none));
    assert(sum(1, h) == sum(0, h) + h(0));
    lemma_add_zero(h(0));
    lemma_mul_units(p.tables.relation(m, 0));
    assert(eq_table(none)[0] == F128::one());
    // The tag's value.
    lemma_fold_low_to_value(tags(pow2(mu)), p.rho);
    lemma_tag_value(p.rho);
}

/// The tables have the sizes of an instance, no leaf fraction is undefined and
/// no equality challenge is one.
pub open spec fn run_is_sound<Ch: Challenger>(
    s: Ch::State,
    f: Seq<F128>,
    g: Seq<F128>,
    sigma: Seq<usize>,
    mu: nat,
    out: PermutationHead,
) -> bool {
    let pc = perm_challenges::<Ch>(s, out.v_root@, out.claimed_product, mu);
    &&& 1 <= mu <= 64
    &&& f.len() == pow2(mu)
    &&& g.len() == f.len()
    &&& sigma.len() == f.len()
    &&& all_nonzero(masked(g, image_tags(sigma), pc.mix.beta, pc.mix.gamma))
    &&& forall|i: int| 0 <= i < mu ==> #[trigger] pc.r[i] != F128::one()
}

// ---------------------------------------------------------------------------
// The opening
// ---------------------------------------------------------------------------

/// The table with its lowest variable bound to a bit.
proof fn lemma_bind_low_bit(v: Seq<F128>)
    requires
        v.len() % 2 == 0,
    ensures
        fold_low(v, F128::zero()) == strided(v, 0),
        fold_low(v, F128::one()) == strided(v, 1),
{
    assert forall|i: int| 0 <= i < v.len() / 2 implies fold_low(v, F128::zero())[i]
        == #[trigger] strided(v, 0)[i] by {
        lemma_mul_units(v[2 * i] + v[2 * i + 1]);
        lemma_add_zero(v[2 * i]);
    }
    assert(fold_low(v, F128::zero()) =~= strided(v, 0));
    assert forall|i: int| 0 <= i < v.len() / 2 implies fold_low(v, F128::one())[i]
        == #[trigger] strided(v, 1)[i] by {
        lemma_mul_units(v[2 * i] + v[2 * i + 1]);
        lemma_add_rules(v[2 * i], v[2 * i + 1], v[2 * i], v[2 * i]);
    }
    assert(fold_low(v, F128::one()) =~= strided(v, 1));
}

/// The table with its highest variable bound to a bit.
proof fn lemma_bind_high_bit(v: Seq<F128>, n: int)
    requires
        v.len() == 2 * n,
    ensures
        bound_top(v, F128::zero()) == v.subrange(0, n),
        bound_top(v, F128::one()) == v.subrange(n, 2 * n),
{
    assert forall|i: int| 0 <= i < n implies bound_top(v, F128::zero())[i] == #[trigger] v.subrange(
        0,
        n,
    )[i] by {
        lemma_mul_units(v[i + n] + v[i]);
        lemma_add_zero(v[i]);
    }
    assert(bound_top(v, F128::zero()) =~= v.subrange(0, n));
    assert forall|i: int| 0 <= i < n implies bound_top(v, F128::one())[i] == #[trigger] v.subrange(
        n,
        2 * n,
    )[i] by {
        lemma_mul_units(v[i + n] + v[i]);
        lemma_add_rules(v[i], v[i + n], v[i], v[i]);
        lemma_add_rules(v[i + n], v[i], v[i], v[i]);
    }
    assert(bound_top(v, F128::one()) =~= v.subrange(n, 2 * n));
}

/// The value of a table at the corner whose coordinates are all one.
proof fn lemma_last_corner(v: Seq<F128>, k: nat)
    requires
        v.len() == pow2(k),
    ensures
        mle(v, Seq::new(k, |i: int| F128::one())) == v[v.len() - 1],
    decreases k,
{
    let ones = Seq::new(k, |i: int| F128::one());
    lemma2_to64();
    lemma_pow2_pos(k);
    if k == 0 {
        lemma_fold_low_to_value(v, ones);
    } else {
        lemma_pow2_unfold(k);
        let rest = Seq::new((k - 1) as nat, |i: int| F128::one());
        assert(ones =~= seq![F128::one()] + rest);
        lemma_fold_low_is_evaluation(v, F128::one(), rest);
        lemma_bind_low_bit(v);
        lemma_pow2_pos((k - 1) as nat);
        lemma_last_corner(strided(v, 1), (k - 1) as nat);
        assert(strided(v, 1)[v.len() / 2 - 1] == v[v.len() - 1]);
    }
}

/// The evaluations that the prover claims of `v` are its values at the five
/// points.
proof fn lemma_opened_values(v: Seq<F128>, mu: nat, rho: Seq<F128>)
    requires
        v.len() == pow2(mu + 1),
        rho.len() == mu,
        mu >= 1,
    ensures
        ({
            let n = pow2(mu) as int;
            &&& fold_low_all(strided(v, 0), rho)[0] == mle(v, v_points(rho)[0])
            &&& fold_low_all(strided(v, 1), rho)[0] == mle(v, v_points(rho)[1])
            &&& fold_low_all(v.subrange(n, 2 * n), rho)[0] == mle(v, v_points(rho)[2])
            &&& fold_low_all(v.subrange(0, n), rho)[0] == mle(v, v_points(rho)[3])
            &&& v[2 * n - 2] == mle(v, v_points(rho)[4])
        }),
{
    let n = pow2(mu) as int;
    lemma_pow2_unfold(mu + 1);
    lemma_pow2_unfold(mu);
    lemma_bind_low_bit(v);
    lemma_bind_high_bit(v, n);
    lemma_fold_low_is_evaluation(v, F128::zero(), rho);
    lemma_fold_low_is_evaluation(v, F128::one(), rho);
    lemma_fold_low_to_value(strided(v, 0), rho);
    lemma_fold_low_to_value(strided(v, 1), rho);
    lemma_bind_is_evaluation(v, rho, F128::one());
    lemma_bind_is_evaluation(v, rho, F128::zero());
    lemma_fold_low_to_value(v.subrange(n, 2 * n), rho);
    lemma_fold_low_to_value(v.subrange(0, n), rho);
    let ones = Seq::new(mu, |i: int| F128::one());
    lemma_fold_low_is_evaluation(v, F128::zero(), ones);
    lemma_last_corner(strided(v, 0), mu);
    assert(Seq::new(rho.len(), |i: int| F128::one()) =~= ones);
    lemma_pow2_pos(mu);
    assert(strided(v, 0)[n - 1] == v[2 * n - 2]);
}

// ---------------------------------------------------------------------------
// The grand product
// ---------------------------------------------------------------------------

/// The product of level entries: the entries of the grand-product table from
/// `from` on, `len` of them, multiply to the product of the leaves.
proof fn lemma_levels(h: Seq<F128>, k: nat, from: int, len: nat)
    requires
        h.len() == pow2(k),
        h.len() >= 2,
        len >= 1,
        from + 2 * len == 2 * h.len(),
        crate::index::power_of_two(len),
        0 <= from,
    ensures
        run_product(product_table(h), from, from + len) == product_table(h)[2 * h.len() - 2],
    decreases len,
{
    let v = product_table(h);
    let n = h.len() as int;
    if len == 1 {
        assert(from == 2 * n - 2);
        assert(run_product(v, from, from + 1) == run_product(v, from, from) * v[from]);
        lemma_mul_units(v[from]);
    } else {
        let e = crate::index::log2(len);
        lemma2_to64();
        if e > 0 {
            lemma_pow2_unfold(e);
        }
        let half = (len / 2) as nat;
        crate::index::lemma_log2((e - 1) as nat);
        lemma_levels(h, k, from + len, half);
        lemma_level_pairs(h, from, from + len, half);
    }
}

/// A level multiplies to the same as the next.
proof fn lemma_level_pairs(h: Seq<F128>, from: int, next: int, m: nat)
    requires
        h.len() >= 2,
        0 <= from,
        from % 2 == 0,
        next == h.len() + from / 2,
        next + m <= 2 * h.len() - 1,
    ensures
        run_product(product_table(h), from, from + 2 * m) == run_product(
            product_table(h),
            next,
            next + m,
        ),
    decreases m,
{
    let v = product_table(h);
    if m > 0 {
        let k = (m - 1) as nat;
        lemma_level_pairs(h, from, next, k);
        let i = next + k;
        assert(2 * (i - h.len()) == from + 2 * k);
        assert(v[i] == v[from + 2 * k] * v[from + 2 * k + 1]);
        assert(run_product(v, from, from + 2 * m) == run_product(v, from, from + 2 * m - 1) * v[from
            + 2 * m - 1]);
        assert(run_product(v, from, from + 2 * m - 1) == run_product(v, from, from + 2 * k)
            * v[from + 2 * k]);
        lemma_mul_associates(
            run_product(v, from, from + 2 * k),
            v[from + 2 * k],
            v[from + 2 * k + 1],
        );
    }
}

/// The claimed product is the product of the leaves.
pub proof fn lemma_claimed_product(h: Seq<F128>, k: nat)
    requires
        k >= 1,
        h.len() == pow2(k),
    ensures
        product_table(h)[2 * h.len() - 2] == run_product(h, 0, h.len() as int),
{
    lemma2_to64();
    lemma_pow2_unfold(k);
    lemma_pow2_pos((k - 1) as nat);
    crate::index::lemma_log2(k);
    lemma_levels(h, k, 0, h.len());
    lemma_run_product_same(product_table(h), h, h.len() as int);
}

proof fn lemma_run_product_same(a: Seq<F128>, b: Seq<F128>, n: int)
    requires
        0 <= n <= b.len() <= a.len(),
        forall|i: int| 0 <= i < n ==> #[trigger] a[i] == b[i],
    ensures
        run_product(a, 0, n) == run_product(b, 0, n),
    decreases n,
{
    if n > 0 {
        lemma_run_product_same(a, b, n - 1);
    }
}

/// A factor can be taken out of a product.
proof fn lemma_take_out(s: Seq<F128>, i: int)
    requires
        0 <= i < s.len(),
    ensures
        run_product(s, 0, s.len() as int) == run_product(
            s.remove(i),
            0,
            s.len() - 1,
        ) * s[i],
    decreases s.len(),
{
    let n = s.len() as int;
    let t = s.remove(i);
    if i == n - 1 {
        lemma_run_product_same(s, t, n - 1);
    } else {
        let short = s.drop_last();
        lemma_take_out(short, i);
        assert(short.remove(i) =~= t.drop_last());
        lemma_run_product_same(s, short, n - 1);
        lemma_run_product_same(t, t.drop_last(), n - 2);
        assert(t[n - 2] == s[n - 1]);
        let x = run_product(t, 0, n - 2);
        lemma_mul_associates(x, s[i], s[n - 1]);
        lemma_mul_commutes(s[i], s[n - 1]);
        lemma_mul_associates(x, s[n - 1], s[i]);
    }
}

/// `sigma` is a permutation of `0..n`.
pub open spec fn is_permutation(sigma: Seq<usize>) -> bool {
    &&& forall|x: int| 0 <= x < sigma.len() ==> #[trigger] sigma[x] < sigma.len()
    &&& forall|x: int, y: int|
        0 <= x < sigma.len() && 0 <= y < sigma.len() && #[trigger] sigma[x] == #[trigger] sigma[y]
            ==> x == y
}

/// Distinct numbers below `n`, `n` of them, hold every number below `n`.
proof fn lemma_onto(sigma: Seq<usize>, n: nat, y: int)
    requires
        sigma.len() == n,
        forall|x: int| 0 <= x < n ==> #[trigger] sigma[x] < n,
        forall|x: int, z: int|
            0 <= x < n && 0 <= z < n && #[trigger] sigma[x] == #[trigger] sigma[z] ==> x == z,
        0 <= y < n,
    ensures
        exists|x: int| 0 <= x < n && #[trigger] sigma[x] == y,
{
    let ints = Seq::new(n, |i: int| sigma[i] as int);
    let all = ints.to_set();
    let range = vstd::set_lib::set_int_range(0, n as int);
    assert(ints.no_duplicates()) by {
        assert forall|i: int, j: int| 0 <= i < n && 0 <= j < n && i != j implies ints[i]
            != ints[j] by {
            assert(sigma[i] != sigma[j]);
        }
    }
    ints.unique_seq_to_set();
    vstd::set_lib::lemma_int_range(0, n as int);
    assert(all.subset_of(range)) by {
        assert forall|a: int| all.contains(a) implies range.contains(a) by {
            let i = choose|i: int| 0 <= i < n && ints[i] == a;
            assert(sigma[i] < n);
        }
    }
    vstd::set_lib::lemma_subset_equality(all, range);
    assert(all.contains(y));
    let i = choose|i: int| 0 <= i < n && ints[i] == y;
    assert(sigma[i] == y);
}

/// A product does not depend on the order of its factors.
proof fn lemma_permuted_product(s: Seq<F128>, sigma: Seq<usize>)
    requires
        s.len() == sigma.len(),
        is_permutation(sigma),
    ensures
        run_product(Seq::new(s.len(), |x: int| s[sigma[x] as int]), 0, s.len() as int)
            == run_product(s, 0, s.len() as int),
    decreases s.len(),
{
    let n = s.len() as int;
    let t = Seq::new(s.len(), |x: int| s[sigma[x] as int]);
    if n > 0 {
        lemma_onto(sigma, s.len(), n - 1);
        let i = choose|x: int| 0 <= x < n && #[trigger] sigma[x] == n - 1;
        let rest = sigma.remove(i);
        let short = s.drop_last();
        assert forall|x: int| 0 <= x < rest.len() implies #[trigger] rest[x] < rest.len() by {
            let y = if x < i {
                x
            } else {
                x + 1
            };
            assert(rest[x] == sigma[y]);
            assert(sigma[y] != sigma[i]);
        }
        assert forall|x: int, y: int|
            0 <= x < rest.len() && 0 <= y < rest.len() && #[trigger] rest[x]
                == #[trigger] rest[y] implies x == y by {
            let a = if x < i {
                x
            } else {
                x + 1
            };
            let b = if y < i {
                y
            } else {
                y + 1
            };
            assert(rest[x] == sigma[a] && rest[y] == sigma[b]);
        }
        lemma_permuted_product(short, rest);
        let u = Seq::new(short.len(), |x: int| short[rest[x] as int]);
        lemma_take_out(t, i);
        assert forall|x: int| 0 <= x < u.len() implies u[x] == #[trigger] t.remove(i)[x] by {
            let y = if x < i {
                x
            } else {
                x + 1
            };
            assert(rest[x] == sigma[y]);
            assert(rest[x] < rest.len());
        }
        assert(u =~= t.remove(i));
        lemma_run_product_same(s, short, n - 1);
    }
}

/// The product of the fractions is the quotient of the products.
proof fn lemma_fraction_product(p: Seq<F128>, q: Seq<F128>, n: int)
    requires
        p.len() == q.len(),
        all_nonzero(q),
        0 <= n <= p.len(),
    ensures
        run_product(fractions(p, q), 0, n) * run_product(q, 0, n) == run_product(p, 0, n),
    decreases n,
{
    lemma_mul_units(F128::one());
    if n > 0 {
        lemma_fraction_product(p, q, n - 1);
        let x = n - 1;
        assert(q[x] != F128::zero());
        assert(!chunk_has_zero(q, x)) by {
            if chunk_has_zero(q, x) {
                let j = choose|j: int|
                    0 <= j < q.len() && j / (crate::permutation::CHUNK as int) == x / (
                    crate::permutation::CHUNK as int) && #[trigger] q[j] == F128::zero();
                assert(q[j] != F128::zero());
            }
        }
        let h = fractions(p, q);
        let inv = q[x].inverse();
        lemma_mul_inverse(q[x]);
        lemma_mul_associates(p[x], inv, q[x]);
        lemma_mul_commutes(inv, q[x]);
        lemma_mul_units(p[x]);
        assert(h[x] * q[x] == p[x]);
        crate::field::gf2_128::lemma_mul_interchange(
            run_product(h, 0, x),
            h[x],
            run_product(q, 0, x),
            q[x],
        );
    }
}

/// Related tables have grand product one: the factors of numerator and
/// denominator are the same, in another order.
pub proof fn lemma_product_is_one(
    f: Seq<F128>,
    g: Seq<F128>,
    sigma: Seq<usize>,
    beta: F128,
    gamma: F128,
    mu: nat,
)
    requires
        1 <= mu,
        f.len() == pow2(mu),
        g.len() == f.len(),
        sigma.len() == f.len(),
        is_permutation(sigma),
        forall|x: int| 0 <= x < f.len() ==> #[trigger] g[x] == f[sigma[x] as int],
        all_nonzero(masked(g, image_tags(sigma), beta, gamma)),
    ensures
        product_table(
            fractions(
                masked(f, tags(f.len()), beta, gamma),
                masked(g, image_tags(sigma), beta, gamma),
            ),
        )[2 * f.len() - 2] == F128::one(),
{
    let p = masked(f, tags(f.len()), beta, gamma);
    let q = masked(g, image_tags(sigma), beta, gamma);
    let h = fractions(p, q);
    let n = f.len() as int;
    lemma_claimed_product(h, mu);
    lemma_fraction_product(p, q, n);
    lemma_permuted_product(p, sigma);
    let t = Seq::new(p.len(), |x: int| p[sigma[x] as int]);
    assert forall|x: int| 0 <= x < n implies t[x] == #[trigger] q[x] by {
        assert(g[x] == f[sigma[x] as int]);
        assert(sigma[x] < sigma.len());
    }
    assert(t =~= q);
    let (a, b) = (run_product(h, 0, n), run_product(q, 0, n));
    lemma_run_product(q, 0, n);
    assert(b != F128::zero()) by {
        if b == F128::zero() {
            let j = choose|j: int| 0 <= j < n && #[trigger] q[j] == F128::zero();
            assert(q[j] != F128::zero());
        }
    }
    // a·b == b, so a == 1.
    lemma_mul_units(b);
    lemma_mul_commutes(a, b);
    lemma_mul_commutes(F128::one(), b);
    crate::field::gf2_128::lemma_mul_cancels(b, a, F128::one());
}

// ---------------------------------------------------------------------------
// Completeness
// ---------------------------------------------------------------------------

/// The claims that the prover outputs are the values at `ρ` of the witness
/// tables and of the grand-product table.
pub proof fn lemma_claims_are_values<Ch: Challenger>(
    s: Ch::State,
    f: Seq<F128>,
    g: Seq<F128>,
    sigma: Seq<usize>,
    mu: nat,
    out: PermutationHead,
    claim: PermutationClaim,
)
    requires
        mu >= 1,
        f.len() == pow2(mu),
        g.len() == f.len(),
        sigma.len() == f.len(),
        honest_head::<Ch>(s, f, g, sigma, mu, out, claim),
    ensures
        ({
            let beta = Ch::challenge(beta_state::<Ch>(s));
            let gamma = Ch::challenge(gamma_state::<Ch>(s));
            let v = product_table(
                fractions(
                    masked(f, tags(f.len()), beta, gamma),
                    masked(g, image_tags(sigma), beta, gamma),
                ),
            );
            let rho = claim.rho@;
            &&& rho.len() == mu
            &&& claim.f_eval == mle(f, rho)
            &&& claim.g_eval == mle(g, rho)
            &&& claim.s_sigma_eval == mle(image_tags(sigma), rho)
            &&& claim.v_x0 == mle(v, v_points(rho)[0])
            &&& claim.v_x1 == mle(v, v_points(rho)[1])
            &&& claim.v_1x == mle(v, v_points(rho)[2])
            &&& claim.v_0x == mle(v, v_points(rho)[3])
            &&& out.claimed_product == mle(v, v_points(rho)[4])
        }),
{
    let pc = perm_challenges::<Ch>(s, out.v_root@, out.claimed_product, mu);
    let m = pc.mix;
    let v = product_table(
        fractions(
            masked(f, tags(f.len()), m.beta, m.gamma),
            masked(g, image_tags(sigma), m.beta, m.gamma),
        ),
    );
    let t0 = instance_tables(f, g, sigma, v);
    let p = perm_rounds::<Ch>(pc.state, t0, m, pc.r, mu);
    lemma_pow2_unfold(mu + 1);
    lemma_perm_shape::<Ch>(pc.state, t0, m, pc.r, mu, mu);
    lemma_fold_low_to_value(f, p.rho);
    lemma_fold_low_to_value(g, p.rho);
    lemma_fold_low_to_value(image_tags(sigma), p.rho);
    lemma_opened_values(v, mu, p.rho);
}

/// An honest run passes every check before the opening of `v`, and its claims on `v`
/// are true.
proof fn lemma_head_passes<Ch: Challenger>(
    s: Ch::State,
    f: Seq<F128>,
    g: Seq<F128>,
    sigma: Seq<usize>,
    mu: nat,
    h: PermutationHead,
    claim: PermutationClaim,
)
    requires
        run_is_sound::<Ch>(s, f, g, sigma, mu, h),
        is_permutation(sigma),
        forall|x: int| 0 <= x < f.len() ==> #[trigger] g[x] == f[sigma[x] as int],
        honest_head::<Ch>(s, f, g, sigma, mu, h, claim),
    ensures
        ({
            let pc = perm_challenges::<Ch>(s, h.v_root@, h.claimed_product, mu);
            let c = checked_rounds::<Ch>(pc.state, h.rounds@, pc.r, mu);
            let v = honest_v::<Ch>(s, f, g, sigma);
            &&& c.claim == final_value(h, pc.mix, c.rho)
            &&& c.rho == claim.rho@
            &&& c.rho.len() == mu
            &&& after_values::<Ch>(c.state, evals(h)) == opening_state::<Ch>(
                s,
                f,
                g,
                sigma,
                mu,
                h,
            )
            &&& h.claimed_product == F128::one()
            &&& v.len() == pow2(mu + 1)
            &&& forall|k: int|
                0 <= k < 5 ==> v_values(h)[k] == mle(v, #[trigger] v_points(claim.rho@)[k])
            &&& forall|k: int|
                0 <= k < 5 ==> (#[trigger] v_points(claim.rho@)[k]).len() == mu + 1
        }),
{
    let pc = perm_challenges::<Ch>(s, h.v_root@, h.claimed_product, mu);
    lemma_pow2_unfold(mu + 1);
    lemma_sumcheck_passes::<Ch>(s, f, g, sigma, mu, h, claim);
    lemma_product_is_one(f, g, sigma, pc.mix.beta, pc.mix.gamma, mu);
    lemma_claims_are_values::<Ch>(s, f, g, sigma, mu, h, claim);
}

/// An honest proof with BaseFold is accepted: for tables related by a permutation the
/// verifier accepts the prover's proof, outputs the same claims and ends in the
/// same state, unless a challenge happens to make a denominator vanish or to
/// be one.
#[verifier::rlimit(60)]
#[verifier::spinoff_prover]
pub proof fn lemma_honest_permutation_is_accepted<Ch: Challenger, L>(
    s: Ch::State,
    end: Ch::State,
    f: Seq<F128>,
    g: Seq<F128>,
    sigma: Seq<usize>,
    mu: nat,
    out: PermutationProof<L>,
    claim: PermutationClaim,
    ntt: AdditiveNttF128,
)
    requires
        run_is_sound::<Ch>(s, f, g, sigma, mu, out.head()),
        fits(mu),
        is_permutation(sigma),
        forall|x: int| 0 <= x < f.len() ==> #[trigger] g[x] == f[sigma[x] as int],
        honest_permutation::<Ch, L>(s, end, f, g, sigma, mu, out, claim),
        is_standard(ntt, mu + 1),
    ensures
        ({
            let v = perm_verdict::<Ch, L>(s, mu, out, &ntt);
            &&& v.result == Ok::<Seq<F128>, VerifyError>(claim.rho@)
            &&& v.state == end
            &&& out.claimed_product == F128::one()
        }),
{
    let h = out.head();
    let rho = claim.rho@;
    let v = honest_v::<Ch>(s, f, g, sigma);
    let opening = opening_state::<Ch>(s, f, g, sigma, mu, h);
    let commitment = Commitment { root: out.v_root, params: params_of(mu + 1) };
    lemma2_to64();
    crate::index::lemma_pow2_fits(mu + 8);
    lemma_head_passes::<Ch>(s, f, g, sigma, mu, h, claim);
    let (data, pd) = choose|data: ProverData, pd: Seq<PackedDirectClaim>|
        #![trigger committed(v, commitment, data), opens_v(pd, rho, h)]
        {
            &&& committed(v, commitment, data)
            &&& opens_v(pd, rho, h)
            &&& batch_opened::<Ch>(
                opening,
                end,
                out.v_open->BaseFold_0,
                v,
                data,
                commitment.params,
                Seq::empty(),
                Seq::empty(),
                pd,
                dense_padding(commitment.params.m),
            )
        };
    let none = Seq::<&[F128]>::empty();
    assert(views(none) =~= Seq::<Seq<F128>>::empty());
    assert(direct_claims_hold(v, pd)) by {
        assert forall|k: int| 0 <= k < pd.len() implies {
            &&& (#[trigger] pd[k]).value == mle(v, pd[k].point@)
            &&& pd[k].eq_ind.table() == eq_table(pd[k].point@)
            &&& pow2(pd[k].point@.len()) == v.len()
        } by {
            assert(pd[k].point@ == v_points(rho)[k]);
        }
    }
    assert(direct_values(pd) =~= v_values(h));
    assert(Seq::new(pd.len(), |k: int| eq_table(pd[k].point@)) =~= v_tables(rho));
    let padding = dense_padding(commitment.params.m);
    lemma_dense_is_live(commitment.params.m);
    assert(crate::pcs::ring_switch::kept(v, padding) =~= v);
    assert(crate::pcs::laws::bit_claims(v, Seq::empty(), views(none)) =~= Seq::<F128>::empty());
    lemma_batch_opening_is_accepted::<Ch>(
        opening,
        end,
        out.v_open->BaseFold_0,
        v,
        commitment,
        data,
        none,
        Seq::empty(),
        Seq::empty(),
        pd,
        padding,
        ntt,
    );
}

/// Where `v` is opened by a recursive backend, prover and verifier hand it the same claim
/// in the same state, and the claim is true: for tables related by a permutation the
/// verifier passes the prover's proof on to the backend, and the inner product of `v` and
/// the combined table is the target. The same challenges are left out.
pub proof fn lemma_backend_claim_is_true<Ch: Challenger, L>(
    s: Ch::State,
    end: Ch::State,
    f: Seq<F128>,
    g: Seq<F128>,
    sigma: Seq<usize>,
    mu: nat,
    pending: PendingPermutation,
    out: PermutationProof<L>,
    ntt: &AdditiveNttF128,
)
    requires
        run_is_sound::<Ch>(s, f, g, sigma, mu, out.head()),
        is_permutation(sigma),
        forall|x: int| 0 <= x < f.len() ==> #[trigger] g[x] == f[sigma[x] as int],
        honest_pending::<Ch>(s, end, f, g, sigma, mu, pending),
        out.head() == pending.head,
        out.v_open is Ligerito,
    ensures
        ({
            let h = pending.head;
            let v = perm_verdict::<Ch, L>(s, mu, out, ntt);
            let pc = perm_challenges::<Ch>(s, h.v_root@, h.claimed_product, mu);
            let p = checked_rounds::<Ch>(pc.state, h.rounds@, pc.r, mu);
            let bc = v_challenges::<Ch>(after_values::<Ch>(p.state, evals(h)), h);
            &&& v.result == Ok::<Seq<F128>, VerifyError>(pending.claim.rho@)
            &&& v.state == end
            &&& pending.combined.target_combined == v_target(bc, h)
            &&& pending.combined.b_combined@ == v_table(bc, p.rho)
            &&& dot(pending.v@, pending.combined.b_combined@) == pending.combined.target_combined
        }),
{
    let h = pending.head;
    let rho = pending.claim.rho@;
    let z = pending.v@;
    lemma_head_passes::<Ch>(s, f, g, sigma, mu, h, pending.claim);
    let bc = v_challenges::<Ch>(opening_state::<Ch>(s, f, g, sigma, mu, h), h);
    let tables = v_tables(rho);
    assert forall|k: int| 0 <= k < tables.len() implies (#[trigger] tables[k]).len() == z.len()
        && dot(z, tables[k]) == v_values(h)[k] by {
        let point = v_points(rho)[k];
        assert(point.len() == mu + 1);
        assert(v_values(h)[k] == mle(z, point));
    }
    assert(bc.weights =~= Seq::<Seq<F128>>::empty());
    lemma_combined_target(bc, z, Seq::empty(), Seq::empty(), tables, v_values(h));
}

/// Tables whose grand product is not one are rejected at the root, whatever
/// the prover opened.
pub proof fn lemma_wrong_product_is_rejected<Ch: Challenger, L>(
    s: Ch::State,
    f: Seq<F128>,
    g: Seq<F128>,
    sigma: Seq<usize>,
    mu: nat,
    out: PermutationProof<L>,
    claim: PermutationClaim,
    ntt: &AdditiveNttF128,
)
    requires
        run_is_sound::<Ch>(s, f, g, sigma, mu, out.head()),
        honest_head::<Ch>(s, f, g, sigma, mu, out.head(), claim),
        out.claimed_product != F128::one(),
    ensures
        perm_verdict::<Ch, L>(s, mu, out, ntt).result == Err::<Seq<F128>, VerifyError>(
            VerifyError::RootNotOne,
        ),
{
    lemma_sumcheck_passes::<Ch>(s, f, g, sigma, mu, out.head(), claim);
}

/// A proof whose opening is not of the backend for its size is never accepted.
pub proof fn lemma_other_backend_is_refused<Ch: Challenger, L>(
    s: Ch::State,
    mu: nat,
    out: PermutationProof<L>,
    ntt: &AdditiveNttF128,
)
    requires
        recursion_is_feasible(mu + 1) != (out.v_open is Ligerito),
    ensures
        perm_verdict::<Ch, L>(s, mu, out, ntt).result is Err,
{
}

} // verus!
