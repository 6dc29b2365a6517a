//! The prover of the permutation check.
use vstd::arithmetic::power2::{lemma2_to64, lemma_pow2_adds, lemma_pow2_unfold, pow2};
use vstd::prelude::*;
use vstd::slice::slice_subrange;
use crate::algebra::{lemma_sum_add, lemma_sum_ext, lemma_sum_scale, lemma_sum_split, sum};
use crate::challenger::Challenger;
use crate::field::gf2_128::{
    lemma_add_rules, lemma_add_zero, lemma_mul_associates, lemma_mul_commutes,
    lemma_mul_distributes, lemma_mul_units,
};
use crate::field::F128;
use crate::index::{lemma_pow2_fits, log2, log2_pow2, power_of_two};
use crate::pcs::combine::{direct_tables, direct_values, DirectEqInd, PackedDirectClaim};
use crate::pcs::commit::{commit, Commitment, ProverData};
use crate::pcs::fold::{
    fold_low, fold_low_all, lemma_fold_low_all_is_evaluation, lemma_fold_low_is_evaluation,
};
use crate::pcs::laws::committed;
use crate::pcs::open::{open_batch_mixed, BatchOpening};
use crate::pcs::residual::{
    open_batch_mixed_ligerito_with_precomputed_s_hat_v, with_backend_proof,
};
use crate::pcs::ring_switch::batch::{claim_messages, views};
use crate::pcs::ring_switch::monomial;
use crate::permutation::tables::{
    batch_inverse, build_grand_product, core_term, core_value, fold_in_place, lemma_tag_value,
    observe_evals, round_message, s_id_basis, tag_term, tag_value, v_open_points,
};
use crate::permutation::{
    evals, fits, fractions, honest_head, honest_pending, honest_permutation, honest_rounds,
    honest_v, image_tags, instance_tables, inverses, masked, opening_state, opens_v, params_of,
    pcs_params, perm_challenges, perm_label, perm_rounds, product_table, strided, tag, tags,
    v_points, v_tables, v_values, Mix, PendingPermutation, PermutationClaim, PermutationHead,
    PermutationProof, Proved, Tables, LIGERITO_MIN_VARS, PCS_LOG_BATCH_SIZE, PCS_LOG_INV_RATE,
};
use crate::zerocheck::multilinear::{build_eq_table, eq_table, mle};
use crate::zerocheck::PaddingSpec;

verus! {

/// All tables have `n` entries.
pub open spec fn tables_len(t: Tables, n: nat) -> bool {
    &&& t.f.len() == n
    &&& t.g.len() == n
    &&& t.s_id.len() == n
    &&& t.s_sigma.len() == n
    &&& t.a.len() == n
    &&& t.b.len() == n
    &&& t.c.len() == n
    &&& t.v0.len() == n
}

/// The tables bound to the challenges so far.
pub open spec fn tables_folded(t: Tables, rs: Seq<F128>) -> Tables {
    Tables {
        f: fold_low_all(t.f, rs),
        g: fold_low_all(t.g, rs),
        s_id: fold_low_all(t.s_id, rs),
        s_sigma: fold_low_all(t.s_sigma, rs),
        a: fold_low_all(t.a, rs),
        b: fold_low_all(t.b, rs),
        c: fold_low_all(t.c, rs),
        v0: fold_low_all(t.v0, rs),
    }
}

/// The shape of the run after `t` rounds.
pub proof fn lemma_perm_shape<Ch: Challenger>(
    s: Ch::State,
    tables: Tables,
    m: Mix,
    r: Seq<F128>,
    mu: nat,
    t: nat,
)
    requires
        t <= mu,
        tables_len(tables, pow2(mu)),
    ensures
        ({
            let p = perm_rounds::<Ch>(s, tables, m, r, t);
            &&& p.messages.len() == t
            &&& p.rho.len() == t
            &&& p.tables == tables_folded(tables, p.rho)
            &&& tables_len(p.tables, pow2((mu - t) as nat))
        }),
    decreases t,
{
    if t > 0 {
        lemma_perm_shape::<Ch>(s, tables, m, r, mu, (t - 1) as nat);
        lemma_pow2_unfold((mu - t + 1) as nat);
        let prev = perm_rounds::<Ch>(s, tables, m, r, (t - 1) as nat);
        let p = perm_rounds::<Ch>(s, tables, m, r, t);
        assert(p.rho.drop_last() =~= prev.rho);
    }
}

/// `Σ_{k ≥ i} basis_k · r_k`.
pub open spec fn tag_suffix(r: Seq<F128>, i: int) -> F128 {
    sum((r.len() - i) as nat, |j: int| monomial(i + j) * r[i + j])
}

/// The tag's value at a point in three parts.
proof fn lemma_tag_parts(rho: Seq<F128>, r: Seq<F128>)
    requires
        rho.len() < r.len(),
    ensures
        ({
            let i = rho.len() as int;
            let point = rho + (seq![F128::one()] + r.subrange(i + 1, r.len() as int));
            tag_value(point) == (tag_value(rho) + monomial(i)) + tag_suffix(r, i + 1)
        }),
{
    let i = rho.len() as int;
    let point = rho + (seq![F128::one()] + r.subrange(i + 1, r.len() as int));
    let f = tag_term(point);
    let k = (r.len() - i - 1) as nat;
    assert(point.len() == rho.len() + 1 + k);
    lemma_sum_split(rho.len() + 1, k, f);
    lemma_sum_ext(rho.len(), f, tag_term(rho));
    assert(sum(rho.len() + 1, f) == sum(rho.len(), f) + f(i));
    lemma_mul_units(monomial(i));
    let g = |j: int| f((rho.len() + 1) + j);
    let h = |j: int| monomial((i + 1) + j) * r[(i + 1) + j];
    assert forall|j: int| 0 <= j < k implies #[trigger] g(j) == h(j) by {
        assert(point[i + 1 + j] == r[i + 1 + j]);
    }
    lemma_sum_ext(k, g, h);
}

/// The tag's part of `G(1)` in closed form.
pub(crate) proof fn lemma_round_one(t: Tables, m: Mix, rho: Seq<F128>, r: Seq<F128>)
    requires
        rho.len() < r.len() <= 64,
        tables_len(t, pow2((r.len() - rho.len()) as nat)),
        t.s_id == fold_low_all(tags(pow2(r.len())), rho),
    ensures
        ({
            let i = rho.len() as int;
            let e = eq_table(r.subrange(i + 1, r.len() as int));
            sum(e.len(), t.one_term(m, e)) == sum(e.len(), core_term(t, m, e)) + m.beta * ((
            tag_value(rho) + monomial(i)) + tag_suffix(r, i + 1))
        }),
{
    let i = rho.len() as int;
    let rest = r.subrange(i + 1, r.len() as int);
    let e = eq_table(rest);
    let n = e.len();
    lemma_pow2_unfold((r.len() - i) as nat);
    let odd = fold_low(t.s_id, F128::one());
    let core = core_term(t, m, e);
    let tagged = |x: int| odd[x] * e[x];
    lemma_sum_scale(n, m.beta, tagged);
    let scaled = |x: int| m.beta * tagged(x);
    lemma_sum_add(n, core, scaled);
    let both = |x: int| core(x) + scaled(x);
    let one = t.one_term(m, e);
    assert forall|x: int| 0 <= x < n implies #[trigger] one(x) == both(x) by {
        let j = 2 * x + 1;
        let (a, b) = (t.s_id[2 * x], t.s_id[j]);
        lemma_mul_units(a + b);
        lemma_add_rules(a, b, b, b);
        assert(odd[x] == b);
        let bs = m.beta * b;
        let vq = t.v0[j] * t.q(m, j);
        let rest_b = m.alpha * (t.c[j] + t.a[j] * t.b[j]);
        // (vq + ((f + bs) + γ)) + rest == ((vq + (f + γ)) + rest) + bs
        let (ff, gg) = (t.f[j], m.gamma);
        lemma_add_rules(ff, bs, gg, gg);
        lemma_add_rules(bs, gg, gg, gg);
        lemma_add_rules(ff, gg, bs, bs);
        assert((ff + bs) + gg == (ff + gg) + bs);
        lemma_add_rules(vq, ff + gg, bs, bs);
        lemma_add_rules(vq + (ff + gg), bs, rest_b, rest_b);
        lemma_add_rules(bs, rest_b, rest_b, rest_b);
        lemma_add_rules(vq + (ff + gg), rest_b, bs, bs);
        assert(t.relation(m, j) == core_value(t, m, x) + bs);
        lemma_mul_distributes(e[x], core_value(t, m, x), bs);
        // e·(β·b) == β·(b·e)
        lemma_mul_commutes(e[x], bs);
        lemma_mul_associates(m.beta, b, e[x]);
    }
    lemma_sum_ext(n, one, both);
    // Σ_x odd[x]·e[x] is the value of the tags at the three-part point.
    let q = seq![F128::one()] + rest;
    lemma_fold_low_is_evaluation(t.s_id, F128::one(), rest);
    assert(rho.len() + q.len() == r.len());
    lemma_fold_low_all_is_evaluation(tags(pow2(r.len())), rho, q);
    lemma_tag_value(rho + q);
    lemma_tag_parts(rho, r);
    assert(mle(odd, rest) == sum(n, |x: int| odd[x] * eq_table(rest)[x]));
    lemma_sum_ext(n, tagged, |x: int| odd[x] * eq_table(rest)[x]);
}

/// The tags of all indices.
fn build_tags(n: usize) -> (out: Vec<F128>)
    ensures
        out@ == tags(n as nat),
{
    let mut out: Vec<F128> = Vec::with_capacity(n);
    let mut x: usize = 0;
    while x < n
        invariant
            x <= n,
            out@.len() == x,
            forall|k: int| 0 <= k < x ==> #[trigger] out@[k] == tag(k),
        decreases n - x,
    {
        out.push(F128::new(x as u64, 0));
        x = x + 1;
    }
    assert(out@ =~= tags(n as nat));
    out
}

/// `f(x) + β·t(x) + γ` for every `x`.
fn build_masked(f: &[F128], t: &[F128], beta: F128, gamma: F128) -> (out: Vec<F128>)
    requires
        f@.len() == t@.len(),
    ensures
        out@ == masked(f@, t@, beta, gamma),
{
    let n: usize = f.len();
    let mut out: Vec<F128> = Vec::with_capacity(n);
    let mut x: usize = 0;
    while x < n
        invariant
            x <= n,
            n == f@.len(),
            n == t@.len(),
            out@.len() == x,
            forall|k: int| 0 <= k < x ==> #[trigger] out@[k] == f@[k] + beta * t@[k] + gamma,
        decreases n - x,
    {
        out.push(f[x] + beta * t[x] + gamma);
        x = x + 1;
    }
    assert(out@ =~= masked(f@, t@, beta, gamma));
    out
}

/// The grand-product table of an instance.
fn build_witness(
    f: &[F128],
    g: &[F128],
    s_sig: &Vec<F128>,
    beta: F128,
    gamma: F128,
    Ghost(sigma): Ghost<Seq<usize>>,
) -> (v: Vec<F128>)
    requires
        f@.len() >= 2,
        g@.len() == f@.len(),
        sigma.len() == f@.len(),
        s_sig@ == image_tags(sigma),
        2 * f@.len() <= usize::MAX,
    ensures
        v@ == product_table(
            fractions(
                masked(f@, tags(f@.len()), beta, gamma),
                masked(g@, image_tags(sigma), beta, gamma),
            ),
        ),
{
    let n: usize = f.len();
    let s_id_vec = build_tags(n);
    let p = build_masked(f, &s_id_vec, beta, gamma);
    let q = build_masked(g, s_sig, beta, gamma);
    let q_inv = batch_inverse(&q);
    let mut leaves: Vec<F128> = Vec::with_capacity(n);
    let mut x: usize = 0;
    while x < n
        invariant
            x <= n,
            n == p@.len(),
            n == q@.len(),
            q_inv@ == inverses(q@),
            leaves@.len() == x,
            forall|k: int| 0 <= k < x ==> #[trigger] leaves@[k] == p@[k] * inverses(q@)[k],
        decreases n - x,
    {
        leaves.push(p[x] * q_inv[x]);
        x = x + 1;
    }
    assert(leaves@ =~= fractions(p@, q@));
    build_grand_product(&leaves)
}

/// Every other entry from `from` on.
fn build_strided(v: &Vec<F128>, from: usize) -> (out: Vec<F128>)
    requires
        from <= 1,
        v@.len() % 2 == 0,
    ensures
        out@ == strided(v@, from as int),
{
    let len: usize = v.len();
    let half: usize = len / 2;
    let mut out: Vec<F128> = Vec::with_capacity(half);
    let mut i: usize = 0;
    while i < half
        invariant
            i <= half,
            len == v@.len(),
            len == 2 * half,
            from <= 1,
            out@.len() == i,
            forall|k: int| 0 <= k < i ==> #[trigger] out@[k] == v@[2 * k + from],
        decreases half - i,
    {
        out.push(v[2 * i + from]);
        i = i + 1;
    }
    assert(out@ =~= strided(v@, from as int));
    out
}

/// A prover that has come to the opening of `v`.
struct Prepared {
    head: PermutationHead,
    claim: PermutationClaim,
    v: Vec<F128>,
    commitment: Commitment,
    prover_data: ProverData,
    claims: Vec<PackedDirectClaim>,
}

/// The prover up to the opening of `v`.
#[verifier::rlimit(60)]
#[verifier::spinoff_prover]
fn prove_head<Ch: Challenger>(f: &[F128], g: &[F128], sigma: &[usize], ch: &mut Ch) -> (out: Prepared)
    requires
        power_of_two(f@.len()),
        f@.len() >= 2,
        g@.len() == f@.len(),
        sigma@.len() == f@.len(),
        forall|x: int| 0 <= x < sigma@.len() ==> #[trigger] sigma@[x] < f@.len(),
        fits(log2(f@.len())),
    ensures
        ({
            let mu = log2(f@.len());
            let s = old(ch).state();
            &&& honest_head::<Ch>(s, f@, g@, sigma@, mu, out.head, out.claim)
            &&& final(ch).state() == opening_state::<Ch>(s, f@, g@, sigma@, mu, out.head)
            &&& out.v@ == honest_v::<Ch>(s, f@, g@, sigma@)
            &&& out.v@.len() == pow2(mu + 1)
            &&& out.commitment == (Commitment { root: out.head.v_root, params: params_of(mu + 1) })
            &&& out.commitment.params.msg_log() == mu + 1
            &&& committed(out.v@, out.commitment, out.prover_data)
            &&& out.claim.rho@.len() == mu
            &&& opens_v(out.claims@, out.claim.rho@, out.head)
            &&& forall|k: int|
                0 <= k < out.claims@.len() ==> (#[trigger] out.claims@[k]).fits(out.v@.len())
        }),
{
    let ghost s = ch.state();
    let n: usize = f.len();
    let mu: usize = log2_pow2(n);
    proof {
        lemma2_to64();
        lemma_pow2_fits(mu as nat + 8);
        lemma_pow2_adds(mu as nat, 8);
        lemma_pow2_adds(mu as nat + 1, 7);
        lemma_pow2_unfold(mu as nat + 1);
        lemma_pow2_unfold(mu as nat + 2);
    }
    let label: [u8; 13] = [
        0x66, 0x6c, 0x6f, 0x63, 0x6b, 0x2d, 0x70, 0x65, 0x72, 0x6d, 0x2d, 0x76, 0x30,
    ];
    assert(label@ =~= perm_label());
    ch.observe_label(&label);
    let beta = ch.sample_f128();
    let gamma = ch.sample_f128();
    // Tags: `s_σ` is a gather of `s_id`.
    let mut s_sig_vec: Vec<F128> = Vec::with_capacity(n);
    let mut x: usize = 0;
    while x < n
        invariant
            x <= n,
            n == sigma@.len(),
            s_sig_vec@.len() == x,
            forall|k: int| 0 <= k < x ==> #[trigger] s_sig_vec@[k] == tag(sigma@[k] as int),
        decreases n - x,
    {
        s_sig_vec.push(F128::new(sigma[x] as u64, 0));
        x = x + 1;
    }
    assert(s_sig_vec@ =~= image_tags(sigma@));
    let basis = s_id_basis(mu);
    // Grand-product tree over the leaves and its derived views. The first half
    // of `v` IS the leaves (`v(0,x) = ℓ(x)`), so no separate `h` is committed.
    let v = build_witness(f, g, &s_sig_vec, beta, gamma, Ghost(sigma@));
    let a = build_strided(&v, 0);
    let b = build_strided(&v, 1);
    let c = vstd::slice::slice_to_vec(slice_subrange(&v, n, 2 * n));
    let v0 = vstd::slice::slice_to_vec(slice_subrange(&v, 0, n));
    let claimed_product = v[2 * n - 2];
    let ghost t0 = instance_tables(f@, g@, sigma@, v@);
    // Commit to the single aux poly `v` (μ+1 vars) and observe its root —
    // binding `v` before the zerocheck challenges (a known `ρ` would break
    // zerocheck soundness).
    let params_v = pcs_params(mu + 1);
    let (commitment_v, pdata_v) = commit(&v, &params_v);
    ch.observe_bytes(&commitment_v.root);
    ch.observe_f128(claimed_product);
    let alpha = ch.sample_f128();
    let r = ch.sample_f128_vec(mu);
    let ghost pc = perm_challenges::<Ch>(s, commitment_v.root@, claimed_product, mu as nat);
    let ghost m = pc.mix;
    assert(m == (Mix { beta, gamma, alpha }));
    assert(r@ == pc.r);
    assert(ch.state() == pc.state);
    // `s_id` is affine, so it is NOT folded as a working vector: its eq-weighted
    // contribution to each round's `G(1)` has the closed form
    // `β·((C_i + basis_i) + Σ_{k>i} basis_k·r_k)`, where `C_i = Σ_{k<i} basis_k·ρ_k`
    // (running). Precompute the suffix sums `S[i] = Σ_{k≥i} basis_k·r_k`.
    let sid_suffix = build_suffix(&basis, &r);
    // Working copies that get folded each round (7 vectors; s_id excluded).
    let mut wf = vstd::slice::slice_to_vec(f);
    let mut wg = vstd::slice::slice_to_vec(g);
    let mut wssig = s_sig_vec;
    let mut wa = a;
    let mut wb = b;
    let mut wc = c;
    let mut wv0 = v0;
    let mut rounds: Vec<(F128, F128)> = Vec::with_capacity(mu);
    let mut rho: Vec<F128> = Vec::with_capacity(mu);
    let mut c_prefix = F128::zero();
    let mut i: usize = 0;
    while i < mu
        invariant
            i <= mu,
            mu < 64,
            pow2(mu as nat) <= usize::MAX,
            pow2(mu as nat) == f@.len(),
            basis@ == Seq::new(mu as nat, |i: int| monomial(i)),
            r@ == pc.r,
            r@.len() == mu,
            m == pc.mix,
            m == (Mix { beta, gamma, alpha }),
            sid_suffix@.len() == mu + 1,
            forall|k: int| 0 <= k <= mu ==> #[trigger] sid_suffix@[k] == tag_suffix(r@, k),
            t0.s_id == tags(pow2(mu as nat)),
            tables_len(t0, pow2(mu as nat)),
            rho@.len() == i,
            c_prefix == tag_value(rho@),
            ({
                let p = perm_rounds::<Ch>(pc.state, t0, m, r@, i as nat);
                &&& rho@ == p.rho
                &&& rounds@ == p.messages
                &&& ch.state() == p.state
                &&& wf@ == p.tables.f
                &&& wg@ == p.tables.g
                &&& wssig@ == p.tables.s_sigma
                &&& wa@ == p.tables.a
                &&& wb@ == p.tables.b
                &&& wc@ == p.tables.c
                &&& wv0@ == p.tables.v0
            }),
        decreases mu - i,
    {
        let ghost p = perm_rounds::<Ch>(pc.state, t0, m, r@, i as nat);
        proof {
            lemma_perm_shape::<Ch>(pc.state, t0, m, r@, mu as nat, i as nat);
            lemma_pow2_unfold((mu - i) as nat);
            if i > 0 {
                vstd::arithmetic::power2::lemma_pow2_strictly_increases(
                    (mu - i) as nat,
                    mu as nat,
                );
            }
            lemma_round_one(p.tables, m, rho@, r@);
        }
        let rest = slice_subrange(&r, i + 1, mu);
        let eq = build_eq_table(rest);
        let (g1_core, g_inf) = round_message(
            &wf,
            &wg,
            &wssig,
            &wa,
            &wb,
            &wc,
            &wv0,
            beta,
            gamma,
            alpha,
            &eq,
            Ghost(p.tables),
        );
        // Add the affine `s_id` contribution to `G(1)` in closed form.
        let g1 = g1_core + beta * ((c_prefix + basis[i]) + sid_suffix[i + 1]);
        assert((g1, g_inf) == p.tables.message(m, r@.subrange(i + 1, mu as int)));
        ch.observe_f128(g1);
        ch.observe_f128(g_inf);
        let rho_i = ch.sample_f128();
        let ghost rho0 = rho@;
        rho.push(rho_i);
        rounds.push((g1, g_inf));
        c_prefix = c_prefix + basis[i] * rho_i;
        proof {
            let tt = tag_term(rho@);
            lemma_sum_ext(i as nat, tag_term(rho0), tt);
            assert(sum((i + 1) as nat, tt) == sum(i as nat, tt) + tt(i as int));
        }
        fold_in_place(&mut wf, rho_i);
        fold_in_place(&mut wg, rho_i);
        fold_in_place(&mut wssig, rho_i);
        fold_in_place(&mut wa, rho_i);
        fold_in_place(&mut wb, rho_i);
        fold_in_place(&mut wc, rho_i);
        fold_in_place(&mut wv0, rho_i);
        i = i + 1;
    }
    let ghost p = perm_rounds::<Ch>(pc.state, t0, m, r@, mu as nat);
    proof {
        lemma_perm_shape::<Ch>(pc.state, t0, m, r@, mu as nat, mu as nat);
    }
    let f_eval = wf[0];
    let g_eval = wg[0];
    let s_sigma_eval = wssig[0];
    let v_x0 = wa[0];
    let v_x1 = wb[0];
    let v_1x = wc[0];
    let v_0x = wv0[0];
    // Bind the evals (so a downstream witness opening is sound), then open `v`
    // at the reduction point.
    let seven: [F128; 7] = [f_eval, g_eval, s_sigma_eval, v_x0, v_x1, v_1x, v_0x];
    observe_evals(ch, &seven);
    let points = v_open_points(&rho);
    let values: [F128; 5] = [v_x0, v_x1, v_1x, v_0x, claimed_product];
    let mut claims: Vec<PackedDirectClaim> = Vec::with_capacity(5);
    let mut k: usize = 0;
    while k < 5
        invariant
            k <= 5,
            pow2(mu as nat + 1) <= usize::MAX,
            rho@.len() == mu,
            forall|q: int| 0 <= q < 5 ==> (#[trigger] points@[q])@ == v_points(rho@)[q],
            claims@.len() == k,
            forall|q: int|
                0 <= q < k ==> {
                    &&& (#[trigger] claims@[q]).point@ == v_points(rho@)[q]
                    &&& claims@[q].value == values@[q]
                    &&& claims@[q].eq_ind.table() == eq_table(v_points(rho@)[q])
                    &&& claims@[q].eq_ind is Dense
                    &&& claims@[q].point@.len() == mu + 1
                },
        decreases 5 - k,
    {
        assert(points@[k as int]@ == v_points(rho@)[k as int]);
        let point = vstd::slice::slice_to_vec(&points[k]);
        assert(point@.len() == mu + 1);
        let eq = build_eq_table(&point);
        claims.push(
            PackedDirectClaim { point, value: values[k], eq_ind: DirectEqInd::Dense(eq) },
        );
        k = k + 1;
    }
    proof {
        assert forall|k: int| 0 <= k < claims@.len() implies (#[trigger] claims@[k]).fits(
            v@.len(),
        ) by {
            assert(claims@[k].eq_ind is Dense);
        }
    }
    let head = PermutationHead {
        v_root: commitment_v.root,
        claimed_product,
        rounds,
        f_eval,
        g_eval,
        s_sigma_eval,
        v_x0,
        v_x1,
        v_1x,
        v_0x,
    };
    proof {
        assert(evals(head) =~= seven@);
        assert(v_values(head) =~= values@);
        assert(p == honest_rounds::<Ch>(s, f@, g@, sigma@, mu as nat, head));
        assert(opens_v(claims@, p.rho, head));
    }
    let claim = PermutationClaim { rho, f_eval, g_eval, s_sigma_eval, v_x0, v_x1, v_1x, v_0x };
    Prepared { head, claim, v, commitment: commitment_v, prover_data: pdata_v, claims }
}

/// Prove that `f, g` are related by `σ` (multiset `{(f,s_id)} = {(g,s_σ)}` with
/// `s_σ(x) = s_id(σ(x))`). `f.len() == g.len() == σ.len() == 2^μ`; `σ` should be a
/// permutation of `[0, 2^μ)`. The caller must have absorbed `f, g, σ` into `ch`.
///
/// Where `v` is small it is opened with BaseFold and the proof is complete. Where it is
/// large, the claim on `v` is left to the recursive backend; [`finish`] takes its proof.
pub fn prove<Ch: Challenger, L>(f: &[F128], g: &[F128], sigma: &[usize], ch: &mut Ch) -> (out: Proved<
    L,
>)
    requires
        power_of_two(f@.len()),
        f@.len() >= 2,
        g@.len() == f@.len(),
        sigma@.len() == f@.len(),
        forall|x: int| 0 <= x < sigma@.len() ==> #[trigger] sigma@[x] < f@.len(),
        fits(log2(f@.len())),
    ensures
        match out {
            Proved::Done(p, claim) => honest_permutation::<Ch, L>(
                old(ch).state(),
                final(ch).state(),
                f@,
                g@,
                sigma@,
                log2(f@.len()),
                p,
                claim,
            ),
            Proved::Backend(pending) => honest_pending::<Ch>(
                old(ch).state(),
                final(ch).state(),
                f@,
                g@,
                sigma@,
                log2(f@.len()),
                pending,
            ),
        },
{
    let ghost s = ch.state();
    let ghost mu = log2(f@.len());
    let ready = prove_head(f, g, sigma, ch);
    let num_vars: usize = ready.commitment.params.log_msg_len();
    proof {
        lemma2_to64();
        lemma_pow2_fits(mu + 8);
        lemma_pow2_adds(mu + 1, 7);
        lemma_pow2_unfold(mu + 1);
    }
    let padding = PaddingSpec::dense(ready.commitment.params.m);
    let none: [&[F128]; 0] = [];
    assert(none@ =~= Seq::<&[F128]>::empty());
    assert(views(none@) =~= Seq::<Seq<F128>>::empty());
    if num_vars >= LIGERITO_MIN_VARS {
        let no_messages: [Option<&[F128]>; 0] = [];
        let n_claims: usize = ready.claims.len();
        let combined = open_batch_mixed_ligerito_with_precomputed_s_hat_v(
            &ready.v,
            &ready.commitment,
            &none,
            &no_messages,
            &ready.claims,
            &padding,
            PCS_LOG_BATCH_SIZE,
            PCS_LOG_INV_RATE,
            ch,
        );
        proof {
            let rho = ready.claim.rho@;
            assert(claim_messages(
                ready.v@,
                padding,
                views(none@),
                no_messages@,
            ) =~= Seq::<Seq<F128>>::empty());
            assert(direct_values(ready.claims@) =~= v_values(ready.head));
            assert(direct_tables(ready.claims@) =~= v_tables(rho));
        }
        Proved::Backend(
            PendingPermutation {
                head: ready.head,
                claim: ready.claim,
                v: ready.v,
                commitment: ready.commitment,
                prover_data: ready.prover_data,
                combined,
            },
        )
    } else {
        let n_claims: usize = ready.claims.len();
        let opening = open_batch_mixed(
            &ready.v,
            &ready.prover_data,
            &ready.commitment,
            &none,
            &ready.claims,
            &padding,
            ch,
        );
        Proved::Done(with_opening(ready.head, BatchOpening::BaseFold(opening)), ready.claim)
    }
}

/// The proof with the given opening of `v`.
fn with_opening<L>(head: PermutationHead, v_open: BatchOpening<L>) -> (out: PermutationProof<L>)
    ensures
        out.head() == head,
        out.v_open == v_open,
{
    PermutationProof {
        v_root: head.v_root,
        claimed_product: head.claimed_product,
        rounds: head.rounds,
        f_eval: head.f_eval,
        g_eval: head.g_eval,
        s_sigma_eval: head.s_sigma_eval,
        v_x0: head.v_x0,
        v_x1: head.v_x1,
        v_1x: head.v_1x,
        v_0x: head.v_0x,
        v_open,
    }
}

/// The proof and the claim, once the backend has proved the claim on `v`.
pub fn finish<L>(pending: PendingPermutation, ligerito: L) -> (out: (
    PermutationProof<L>,
    PermutationClaim,
))
    ensures
        out.0.head() == pending.head,
        out.0.v_open matches BatchOpening::Ligerito(o) && o.ring_switches@
            == pending.combined.ring_switches@ && o.ligerito == ligerito,
        out.1 == pending.claim,
{
    let opening = with_backend_proof(pending.combined, ligerito);
    (with_opening(pending.head, BatchOpening::Ligerito(opening)), pending.claim)
}

/// The suffix sums of `basis_k · r_k`.
fn build_suffix(basis: &Vec<F128>, r: &Vec<F128>) -> (out: Vec<F128>)
    requires
        basis@.len() == r@.len(),
        basis@ == Seq::new(r@.len(), |i: int| monomial(i)),
        r@.len() < usize::MAX,
    ensures
        out@.len() == r@.len() + 1,
        forall|k: int| 0 <= k <= r@.len() ==> #[trigger] out@[k] == tag_suffix(r@, k),
{
    let mu: usize = r.len();
    let mut out: Vec<F128> = Vec::new();
    out.resize(mu + 1, F128::zero());
    let mut i: usize = mu;
    while i > 0
        invariant
            i <= mu,
            mu == r@.len(),
            mu == basis@.len(),
            mu < usize::MAX,
            basis@ == Seq::new(r@.len(), |i: int| monomial(i)),
            out@.len() == mu + 1,
            forall|k: int| i <= k <= mu ==> #[trigger] out@[k] == tag_suffix(r@, k),
        decreases i,
    {
        i = i - 1;
        proof {
            let n = (mu - i - 1) as nat;
            let f = |j: int| monomial(i + j) * r@[i + j];
            lemma_sum_split(1, n, f);
            assert(sum(1, f) == sum(0, f) + f(0));
            lemma_add_zero(f(0));
            let g = |j: int| f(1nat + j);
            let h = |j: int| monomial((i + 1) + j) * r@[(i + 1) + j];
            assert forall|j: int| 0 <= j < n implies #[trigger] g(j) == h(j) by {
                assert(i + (1 + j) == (i + 1) + j);
            }
            lemma_sum_ext(n, g, h);
        }
        out[i] = basis[i] * r[i] + out[i + 1];
    }
    out
}

} // verus!
