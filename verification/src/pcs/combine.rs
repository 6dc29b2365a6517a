//! Combining several claims on one witness into a single inner product.
//!
//! Every claim comes down to an inner product of the packed witness with a
//! public table. The tables are added up with random coefficients, and so are
//! the claimed values: one BaseFold run then proves all claims.
use vstd::arithmetic::power2::pow2;
use vstd::prelude::*;
use crate::algebra::{lemma_sum_add, lemma_sum_ext, lemma_sum_update, sum};
use crate::challenger::Challenger;
use crate::field::gf2_128::{
    lemma_add_rules, lemma_add_zero, lemma_mul_distributes, lemma_mul_units,
};
use crate::field::F128;
use crate::pcs::basefold::state_after_samples;
use crate::pcs::fold::low_message;
use crate::pcs::ring_switch::batch::{
    claim_messages, claim_weights, entries_term, entries_value, given,
    lemma_samples_split, prove_batched_padded_with_precomputed, sample_each, samples,
    scale_batched, scaled, switched_state, views, RingSwitchBatchOutput, RsEqInd,
};
use crate::pcs::ring_switch::{
    switched_claim, switched_table, tail, RingSwitchProof, SparseEqTensor,
};
use crate::zerocheck::multilinear::eq_table;
use crate::zerocheck::PaddingSpec;

verus! {

/// `eq_ind` representation for a packed-direct claim. The contributed value at
/// scattered index `j` is the tensor entry — for the dense variant the index
/// is the array offset; for the sparse variant it's reconstructed via
/// [`SparseEqTensor::scatter_idx`].
#[derive(Clone, Debug)]
pub enum DirectEqInd {
    /// Fully-materialized `eq_ind(point)` of length `2^L`.
    Dense(Vec<F128>),
    /// Sparse representation — non-zero entries at scattered indices.
    Sparse(SparseEqTensor),
}

impl DirectEqInd {
    /// The table.
    pub open spec fn table(&self) -> Seq<F128> {
        match self {
            DirectEqInd::Dense(v) => v@,
            DirectEqInd::Sparse(eq) => eq.table(),
        }
    }

    pub open spec fn wf(&self) -> bool {
        match self {
            DirectEqInd::Dense(v) => true,
            DirectEqInd::Sparse(eq) => eq.wf(),
        }
    }

    pub open spec fn dense_part(&self, j: int) -> F128 {
        match self {
            DirectEqInd::Dense(v) => v@[j],
            DirectEqInd::Sparse(eq) => F128::zero(),
        }
    }

    pub open spec fn sparse_part(&self, j: int) -> F128 {
        match self {
            DirectEqInd::Dense(v) => F128::zero(),
            DirectEqInd::Sparse(eq) => eq.entry(j),
        }
    }
}

/// A packed-MLE evaluation claim: `ẑ_packed(point) = value`. Unlike a
/// ring-switched claim, this is opened directly via BaseFold without going
/// through the bit-MLE ↔ packed-MLE bridge (no `s_hat_v`, no φ_8 weighting).
///
/// Use case: protocols whose sumcheck output is naturally a packed-MLE
/// evaluation. Skips the ring-switch step for this claim.
///
/// The combine step adds `γ_k · eq_ind(point)` to the combined table and
/// `γ_k · value` to the target; the verifier's `final_b` check contributes
/// `γ_k · eq_eval(point, basefold_challenges)`.
#[derive(Clone, Debug)]
pub struct PackedDirectClaim {
    /// Multilinear point of length `L = m − 7`.
    pub point: Vec<F128>,
    /// Claimed `ẑ_packed(point)` value.
    pub value: F128,
    /// `eq_ind(point)` in dense or sparse form. Caller responsibility to
    /// match the claim's `point` — the contribution to the combined table is
    /// read directly from this tensor.
    pub eq_ind: DirectEqInd,
}

impl PackedDirectClaim {
    /// The claim is on a witness of `n` elements.
    pub open spec fn fits(&self, n: nat) -> bool {
        &&& pow2(self.point@.len()) == n
        &&& self.eq_ind.wf()
        &&& self.eq_ind.table().len() == n
    }
}

/// The tables of packed-direct claims.
pub open spec fn direct_tables(pd: Seq<PackedDirectClaim>) -> Seq<Seq<F128>> {
    Seq::new(pd.len(), |k: int| pd[k].eq_ind.table())
}

/// The values of packed-direct claims.
pub open spec fn direct_values(pd: Seq<PackedDirectClaim>) -> Seq<F128> {
    Seq::new(pd.len(), |k: int| pd[k].value)
}

// ---------------------------------------------------------------------------
// The transcript
// ---------------------------------------------------------------------------

/// `flock-pcs-packed-direct-v0`.
pub open spec fn direct_label() -> Seq<u8> {
    seq![
        0x66u8, 0x6c, 0x6f, 0x63, 0x6b, 0x2d, 0x70, 0x63, 0x73, 0x2d, 0x70, 0x61, 0x63, 0x6b, 0x65,
        0x64, 0x2d, 0x64, 0x69, 0x72, 0x65, 0x63, 0x74, 0x2d, 0x76, 0x30,
    ]
}

/// `flock-pcs-open-batch-v0`.
pub open spec fn batch_label() -> Seq<u8> {
    seq![
        0x66u8, 0x6c, 0x6f, 0x63, 0x6b, 0x2d, 0x70, 0x63, 0x73, 0x2d, 0x6f, 0x70, 0x65, 0x6e, 0x2d,
        0x62, 0x61, 0x74, 0x63, 0x68, 0x2d, 0x76, 0x30,
    ]
}

/// The state after the values of the first `k` packed-direct claims.
pub open spec fn values_state<Ch: Challenger>(s: Ch::State, values: Seq<F128>, k: nat) -> Ch::State
    decreases k,
{
    if k == 0 {
        s
    } else {
        Ch::after_f128(
            Ch::after_label(
                values_state::<Ch>(s, values, (k - 1) as nat),
                direct_label(),
            ),
            values[k - 1],
        )
    }
}

/// What the transcript of a batch yields: the weights of each ring-switched
/// claim and the coefficient of every claim, ring-switched claims first. The
/// coefficients are sampled once every message and every value is observed.
pub struct BatchChallenges<S> {
    pub weights: Seq<Seq<F128>>,
    pub gammas: Seq<F128>,
    pub state: S,
}

pub open spec fn batch_challenges<Ch: Challenger>(
    s: Ch::State,
    messages: Seq<Seq<F128>>,
    values: Seq<F128>,
) -> BatchChallenges<Ch::State> {
    let n = messages.len();
    let s2 = values_state::<Ch>(
        switched_state::<Ch>(s, messages, n),
        values,
        values.len(),
    );
    BatchChallenges {
        weights: Seq::new(n, |i: int| claim_weights::<Ch>(s, messages, i)),
        gammas: samples::<Ch>(s2, n + values.len()),
        state: state_after_samples::<Ch>(s2, n + values.len()),
    }
}

/// The table of each claim, times its coefficient.
pub open spec fn claim_tables<S>(
    bc: BatchChallenges<S>,
    xs: Seq<Seq<F128>>,
    directs: Seq<Seq<F128>>,
) -> Seq<Seq<F128>> {
    Seq::new(
        xs.len() + directs.len(),
        |k: int|
            if k < xs.len() {
                switched_table(eq_table(tail(xs[k])), scaled(bc.weights[k], bc.gammas[k]))
            } else {
                scaled(directs[k - xs.len()], bc.gammas[k])
            },
    )
}

/// The value of each claim, times its coefficient.
pub open spec fn claim_targets<S>(
    bc: BatchChallenges<S>,
    messages: Seq<Seq<F128>>,
    values: Seq<F128>,
) -> Seq<F128> {
    Seq::new(
        messages.len() + values.len(),
        |k: int|
            if k < messages.len() {
                bc.gammas[k] * switched_claim(messages[k], bc.weights[k])
            } else {
                bc.gammas[k] * values[k - messages.len()]
            },
    )
}

/// The sum of a sequence.
pub open spec fn total(v: Seq<F128>) -> F128 {
    sum(v.len(), |k: int| v[k])
}

pub open spec fn entry_of(tables: Seq<Seq<F128>>, j: int) -> spec_fn(int) -> F128 {
    |k: int| tables[k][j]
}

/// The sum of the tables.
pub open spec fn combined(tables: Seq<Seq<F128>>, n: nat) -> Seq<F128> {
    Seq::new(n, |j: int| sum(tables.len(), entry_of(tables, j)))
}

/// Observe the value of each packed-direct claim, then sample a coefficient for
/// each of `n_rs` ring-switched claims and one for each packed-direct claim.
pub(crate) fn observe_values<Ch: Challenger>(
    values: &Vec<F128>,
    n_rs: usize,
    challenger: &mut Ch,
) -> (gammas: (Vec<F128>, Vec<F128>))
    ensures
        ({
            let s = values_state::<Ch>(old(challenger).state(), values@, values@.len());
            &&& gammas.0@ + gammas.1@ == samples::<Ch>(s, n_rs as nat + values@.len())
            &&& gammas.0@.len() == n_rs
            &&& gammas.1@.len() == values@.len()
            &&& final(challenger).state() == state_after_samples::<Ch>(
                s,
                n_rs as nat + values@.len(),
            )
        }),
{
    let ghost s = challenger.state();
    let n: usize = values.len();
    let label: [u8; 26] = [
        0x66, 0x6c, 0x6f, 0x63, 0x6b, 0x2d, 0x70, 0x63, 0x73, 0x2d, 0x70, 0x61, 0x63, 0x6b, 0x65,
        0x64, 0x2d, 0x64, 0x69, 0x72, 0x65, 0x63, 0x74, 0x2d, 0x76, 0x30,
    ];
    assert(label@ =~= direct_label());
    let mut k: usize = 0;
    while k < n
        invariant
            k <= n,
            n == values@.len(),
            label@ == direct_label(),
            challenger.state() == values_state::<Ch>(s, values@, k as nat),
        decreases n - k,
    {
        challenger.observe_label(&label);
        challenger.observe_f128(values[k]);
        k = k + 1;
    }
    proof {
        lemma_samples_split::<Ch>(challenger.state(), n_rs as nat, n as nat);
    }
    let gammas_rs = sample_each(n_rs, challenger);
    let gammas_pd = sample_each(n, challenger);
    (gammas_rs, gammas_pd)
}

// ---------------------------------------------------------------------------
// Scattered entries
// ---------------------------------------------------------------------------

/// How the first round's message changes when one entry of the table grows.
pub proof fn lemma_message_update(a: Seq<F128>, b: Seq<F128>, idx: int, delta: F128)
    requires
        a.len() == b.len(),
        a.len() % 2 == 0,
        0 <= idx < b.len(),
    ensures
        ({
            let (u_0, u_2) = low_message(a, b);
            let p = idx / 2;
            low_message(a, b.update(idx, b[idx] + delta)) == (
                if idx % 2 == 0 {
                    u_0 + a[2 * p] * delta
                } else {
                    u_0
                },
                u_2 + (a[2 * p] + a[2 * p + 1]) * delta,
            )
        }),
{
    let h = a.len() / 2;
    let c = b.update(idx, b[idx] + delta);
    let p = idx / 2;
    let (f0, g0) = (|i: int| a[2 * i] * b[2 * i], |i: int| a[2 * i] * c[2 * i]);
    let f2 = |i: int| (a[2 * i] + a[2 * i + 1]) * (b[2 * i] + b[2 * i + 1]);
    let g2 = |i: int| (a[2 * i] + a[2 * i + 1]) * (c[2 * i] + c[2 * i + 1]);
    let s = a[2 * p] + a[2 * p + 1];
    let (b0, b1) = (b[2 * p], b[2 * p + 1]);
    if idx % 2 == 0 {
        lemma_mul_distributes(a[2 * p], b0, delta);
        lemma_sum_update(h, f0, g0, p, a[2 * p] * delta);
        lemma_add_rules(b0, delta, b1, b1);
        lemma_add_rules(delta, b1, b1, b1);
        lemma_add_rules(b0, b1, delta, delta);
    } else {
        lemma_sum_ext(h, g0, f0);
        lemma_add_rules(b0, b1, delta, delta);
    }
    assert(c[2 * p] + c[2 * p + 1] == (b0 + b1) + delta);
    lemma_mul_distributes(s, b0 + b1, delta);
    lemma_sum_update(h, f2, g2, p, s * delta);
}

/// Add the scattered entries to the table, and carry the first round's message
/// along.
fn scatter_entries(
    b: &mut Vec<F128>,
    packed_witness: &[F128],
    entries: &Vec<(usize, F128)>,
    u_0: F128,
    u_2: F128,
) -> (m: (F128, F128))
    requires
        packed_witness@.len() == old(b)@.len(),
        old(b)@.len() % 2 == 0,
        forall|c: int| 0 <= c < entries@.len() ==> (#[trigger] entries@[c]).0 < old(b)@.len(),
        (u_0, u_2) == low_message(packed_witness@, old(b)@),
    ensures
        final(b)@.len() == old(b)@.len(),
        forall|j: int|
            0 <= j < old(b)@.len() ==> #[trigger] final(b)@[j] == old(b)@[j] + entries_value(
                entries@,
                j,
            ),
        m == low_message(packed_witness@, final(b)@),
{
    let ghost start = b@;
    let n: usize = entries.len();
    let len: usize = b.len();
    let mut u_0 = u_0;
    let mut u_2 = u_2;
    let mut c: usize = 0;
    proof {
        assert forall|j: int| 0 <= j < start.len() implies #[trigger] b@[j] == start[j] + sum(
            0,
            entries_term(entries@, j),
        ) by {
            lemma_add_zero(start[j]);
        }
    }
    while c < n
        invariant
            c <= n,
            n == entries@.len(),
            len == b@.len(),
            len == start.len(),
            len == packed_witness@.len(),
            len % 2 == 0,
            forall|c: int| 0 <= c < entries@.len() ==> (#[trigger] entries@[c]).0 < len,
            forall|j: int|
                0 <= j < len ==> #[trigger] b@[j] == start[j] + sum(
                    c as nat,
                    entries_term(entries@, j),
                ),
            (u_0, u_2) == low_message(packed_witness@, b@),
        decreases n - c,
    {
        assert(entries@[c as int].0 < len);
        let idx: usize = entries[c].0;
        let delta = entries[c].1;
        let ghost before = b@;
        proof {
            lemma_message_update(packed_witness@, before, idx as int, delta);
        }
        b[idx] = b[idx] + delta;
        let pair: usize = idx / 2;
        let a0 = packed_witness[2 * pair];
        let a1 = packed_witness[2 * pair + 1];
        if idx % 2 == 0 {
            u_0 = u_0 + a0 * delta;
        }
        u_2 = u_2 + (a0 + a1) * delta;
        proof {
            assert forall|j: int| 0 <= j < len implies #[trigger] b@[j] == start[j] + sum(
                (c + 1) as nat,
                entries_term(entries@, j),
            ) by {
                let f = entries_term(entries@, j);
                assert(before[j] == start[j] + sum(c as nat, f));
                assert(sum((c + 1) as nat, f) == sum(c as nat, f) + f(c as int));
                lemma_add_rules(start[j], sum(c as nat, f), f(c as int), delta);
                lemma_add_zero(sum(c as nat, f));
            }
        }
        c = c + 1;
    }
    (u_0, u_2)
}

/// Scatter-add `gamma · eq` into `b_combined` and return the resulting BaseFold
/// round-0 prime delta `(Δu0, Δu2)`. Because the prime is linear in
/// `b_combined`, adding `delta = gamma·val` at index `idx` changes the prime by
/// `Δu0 += a0·delta` (if `idx` even) and `Δu2 += (a0+a1)·delta`, where
/// `a0 = packed_witness[2·pair]`, `a1 = packed_witness[2·pair+1]`,
/// `pair = idx/2`. Computing it here (O(live positions)) avoids a full O(L)
/// re-pass over `b_combined` at the call site.
pub(crate) fn sparse_scatter_add_parallel(
    b_combined: &mut Vec<F128>,
    packed_witness: &[F128],
    eq: &SparseEqTensor,
    gamma: F128,
) -> (d: (F128, F128))
    requires
        eq.wf(),
        pow2(eq.log_len as nat) == old(b_combined)@.len(),
        packed_witness@.len() == old(b_combined)@.len(),
        old(b_combined)@.len() % 2 == 0,
    ensures
        final(b_combined)@.len() == old(b_combined)@.len(),
        forall|j: int|
            0 <= j < old(b_combined)@.len() ==> #[trigger] final(b_combined)@[j] == old(
                b_combined,
            )@[j] + gamma * eq.entry(j),
        ({
            let (u_0, u_2) = low_message(packed_witness@, old(b_combined)@);
            low_message(packed_witness@, final(b_combined)@) == (u_0 + d.0, u_2 + d.1)
        }),
{
    let ghost start = b_combined@;
    let ghost (m0, m2) = low_message(packed_witness@, start);
    let n: usize = eq.live_tensor.len();
    let len: usize = b_combined.len();
    let mut du0 = F128::zero();
    let mut du2 = F128::zero();
    let mut c: usize = 0;
    proof {
        lemma_add_zero(m0);
        lemma_add_zero(m2);
        lemma_mul_units(gamma);
        assert forall|j: int| 0 <= j < start.len() implies #[trigger] b_combined@[j] == start[j]
            + gamma * sum(0, eq.entry_term(j)) by {
            lemma_add_zero(start[j]);
        }
    }
    while c < n
        invariant
            c <= n,
            n == eq.live_tensor@.len(),
            eq.wf(),
            len == b_combined@.len(),
            len == start.len(),
            len == pow2(eq.log_len as nat),
            len == packed_witness@.len(),
            len % 2 == 0,
            forall|j: int|
                0 <= j < len ==> #[trigger] b_combined@[j] == start[j] + gamma * sum(
                    c as nat,
                    eq.entry_term(j),
                ),
            (m0, m2) == low_message(packed_witness@, start),
            low_message(packed_witness@, b_combined@) == (m0 + du0, m2 + du2),
        decreases n - c,
    {
        let val = eq.live_tensor[c];
        let idx: usize = eq.scatter_idx(c);
        let delta = gamma * val;
        let ghost before = b_combined@;
        let ghost (d0, d2) = (du0, du2);
        proof {
            lemma_message_update(packed_witness@, before, idx as int, delta);
        }
        b_combined[idx] = b_combined[idx] + delta;
        // Round-0 prime delta for this scattered position.
        let pair: usize = idx / 2;
        let a0 = packed_witness[2 * pair];
        let a1 = packed_witness[2 * pair + 1];
        if idx % 2 == 0 {
            du0 = du0 + a0 * delta;
        }
        du2 = du2 + (a0 + a1) * delta;
        proof {
            lemma_add_rules(m0, d0, a0 * delta, delta);
            lemma_add_rules(m2, d2, (a0 + a1) * delta, delta);
            assert forall|j: int| 0 <= j < len implies #[trigger] b_combined@[j] == start[j] + gamma
                * sum((c + 1) as nat, eq.entry_term(j)) by {
                let f = eq.entry_term(j);
                let x = sum(c as nat, f);
                assert(before[j] == start[j] + gamma * x);
                assert(sum((c + 1) as nat, f) == x + f(c as int));
                lemma_mul_distributes(gamma, x, f(c as int));
                lemma_add_rules(start[j], gamma * x, gamma * f(c as int), delta);
                lemma_mul_units(gamma);
                lemma_add_zero(gamma * x);
            }
        }
        c = c + 1;
    }
    (du0, du2)
}

// ---------------------------------------------------------------------------
// The combination
// ---------------------------------------------------------------------------

/// What claim combination produces, fed to BaseFold.
#[derive(Debug)]
pub struct CombinedClaim {
    pub ring_switches: Vec<RingSwitchProof>,
    pub b_combined: Vec<F128>,
    pub target_combined: F128,
    /// BaseFold's round-0 sumcheck `(u_0, u_2)` prime.
    pub round0_prime: (F128, F128),
}

spec fn dense_term(
    rs: Seq<(RingSwitchProof, RingSwitchBatchOutput)>,
    pd: Seq<PackedDirectClaim>,
    gammas: Seq<F128>,
    j: int,
) -> spec_fn(int) -> F128 {
    |k: int|
        if k < rs.len() {
            rs[k].1.rs_eq_ind.dense_part(j)
        } else {
            gammas[k - rs.len()] * pd[k - rs.len()].eq_ind.dense_part(j)
        }
}

spec fn sparse_term(
    rs: Seq<(RingSwitchProof, RingSwitchBatchOutput)>,
    pd: Seq<PackedDirectClaim>,
    gammas: Seq<F128>,
    j: int,
) -> spec_fn(int) -> F128 {
    |k: int|
        if k < rs.len() {
            rs[k].1.rs_eq_ind.sparse_part(j)
        } else {
            gammas[k - rs.len()] * pd[k - rs.len()].eq_ind.sparse_part(j)
        }
}

/// What the claims that are not sparse add up to at index `j`.
fn dense_sum(
    rs: &Vec<(RingSwitchProof, RingSwitchBatchOutput)>,
    pd: &[PackedDirectClaim],
    gammas_pd: &Vec<F128>,
    j: usize,
    Ghost(n): Ghost<nat>,
) -> (r: F128)
    requires
        j < n,
        gammas_pd@.len() == pd@.len(),
        forall|k: int|
            0 <= k < rs@.len() ==> (#[trigger] rs@[k]).1.rs_eq_ind.wf()
                && rs@[k].1.rs_eq_ind.size() == n,
        forall|k: int| 0 <= k < pd@.len() ==> (#[trigger] pd@[k]).fits(n),
    ensures
        r == sum(rs@.len() + pd@.len(), dense_term(rs@, pd@, gammas_pd@, j as int)),
{
    let ghost f = dense_term(rs@, pd@, gammas_pd@, j as int);
    let n_rs: usize = rs.len();
    let n_pd: usize = pd.len();
    let mut acc = F128::zero();
    let mut i: usize = 0;
    while i < n_rs
        invariant
            i <= n_rs,
            n_rs == rs@.len(),
            j < n,
            forall|k: int|
                0 <= k < rs@.len() ==> (#[trigger] rs@[k]).1.rs_eq_ind.wf()
                    && rs@[k].1.rs_eq_ind.size() == n,
            f == dense_term(rs@, pd@, gammas_pd@, j as int),
            acc == sum(i as nat, f),
        decreases n_rs - i,
    {
        assert(rs@[i as int].1.rs_eq_ind.wf());
        assert(sum((i + 1) as nat, f) == sum(i as nat, f) + f(i as int));
        acc = acc + rs[i].1.rs_eq_ind.dense_slot(j);
        i = i + 1;
    }
    let mut k: usize = 0;
    while k < n_pd
        invariant
            k <= n_pd,
            n_rs == rs@.len(),
            n_pd == pd@.len(),
            n_pd == gammas_pd@.len(),
            j < n,
            forall|k: int| 0 <= k < pd@.len() ==> (#[trigger] pd@[k]).fits(n),
            f == dense_term(rs@, pd@, gammas_pd@, j as int),
            acc == sum((n_rs + k) as nat, f),
        decreases n_pd - k,
    {
        assert(pd@[k as int].fits(n));
        proof {
            assert(sum((n_rs + k + 1) as nat, f) == sum((n_rs + k) as nat, f) + f(n_rs + k));
            lemma_mul_units(gammas_pd@[k as int]);
            lemma_add_zero(acc);
        }
        match &pd[k].eq_ind {
            DirectEqInd::Dense(v) => {
                acc = acc + gammas_pd[k] * v[j];
            },
            DirectEqInd::Sparse(eq) => {},
        }
        k = k + 1;
    }
    acc
}

/// Runs ring-switching over the ring-switched claims, observes the values of
/// the packed-direct claims and samples the coefficients, then builds the
/// combined table and the combined target. The first round's message is
/// computed in the same pass over the table.
///
/// Deferred tables are folded slot by slot straight into the combined table;
/// sparse claims are scatter-added onto it afterwards, with an incremental
/// adjustment of the message.
#[verifier::rlimit(50)]
pub fn compute_combined_basis_and_target<Ch: Challenger>(
    packed_witness: &[F128],
    x_outers: &[&[F128]],
    precomputed_s_hat_v: &[Option<&[F128]>],
    packed_direct: &[PackedDirectClaim],
    padding: &PaddingSpec,
    challenger: &mut Ch,
) -> (out: CombinedClaim)
    requires
        combine_inputs_fit(
            packed_witness@,
            x_outers@,
            precomputed_s_hat_v@,
            packed_direct@,
            *padding,
        ),
    ensures
        ({
            let s0 = Ch::after_label(old(challenger).state(), batch_label());
            let xs = views(x_outers@);
            let messages = claim_messages(packed_witness@, *padding, xs, precomputed_s_hat_v@);
            let values = direct_values(packed_direct@);
            let bc = batch_challenges::<Ch>(s0, messages, values);
            &&& out.ring_switches@.len() == xs.len()
            &&& forall|i: int|
                0 <= i < xs.len() ==> (#[trigger] out.ring_switches@[i]).s_hat_v@ == messages[i]
            &&& out.b_combined@ == combined(
                claim_tables(bc, xs, direct_tables(packed_direct@)),
                packed_witness@.len(),
            )
            &&& out.target_combined == total(claim_targets(bc, messages, values))
            &&& out.round0_prime == low_message(packed_witness@, out.b_combined@)
            &&& final(challenger).state() == bc.state
        }),
{
    let ghost s0 = Ch::after_label(challenger.state(), batch_label());
    let ghost xs = views(x_outers@);
    let ghost messages = claim_messages(packed_witness@, *padding, xs, precomputed_s_hat_v@);
    let ghost values_spec = direct_values(packed_direct@);
    let ghost bc = batch_challenges::<Ch>(s0, messages, values_spec);
    let ghost tables = claim_tables(bc, xs, direct_tables(packed_direct@));
    let n_rs: usize = x_outers.len();
    let n_pd: usize = packed_direct.len();
    let l: usize = packed_witness.len();
    let label: [u8; 23] = [
        0x66, 0x6c, 0x6f, 0x63, 0x6b, 0x2d, 0x70, 0x63, 0x73, 0x2d, 0x6f, 0x70, 0x65, 0x6e, 0x2d,
        0x62, 0x61, 0x74, 0x63, 0x68, 0x2d, 0x76, 0x30,
    ];
    assert(label@ =~= batch_label());
    challenger.observe_label(&label);
    // 1. Ring-switching for all points.
    let parts = prove_batched_padded_with_precomputed(
        packed_witness,
        x_outers,
        precomputed_s_hat_v,
        padding,
        challenger,
    );
    // 2. Observe the packed-direct values and sample all coefficients.
    let mut values: Vec<F128> = Vec::with_capacity(n_pd);
    let mut k: usize = 0;
    while k < n_pd
        invariant
            k <= n_pd,
            n_pd == packed_direct@.len(),
            values@.len() == k,
            forall|q: int| 0 <= q < k ==> #[trigger] values@[q] == packed_direct@[q].value,
        decreases n_pd - k,
    {
        values.push(packed_direct[k].value);
        k = k + 1;
    }
    assert(values@ =~= values_spec);
    let (gammas_rs, gammas_pd) = observe_values(&values, n_rs, challenger);
    let rs = scale_batched(&parts, x_outers, &gammas_rs);
    proof {
        assert(messages.len() == n_rs);
        assert(bc.gammas =~= gammas_rs@ + gammas_pd@);
        assert forall|k: int| 0 <= k < n_rs implies (#[trigger] rs@[k]).1.rs_eq_ind.stands_for(
            tables[k],
        ) by {
            assert(bc.gammas[k] == gammas_rs@[k]);
        }
    }
    // 3. The combined target.
    let ghost targets = claim_targets(bc, messages, values_spec);
    let ghost tf = |k: int| targets[k];
    let mut target_combined = F128::zero();
    let mut i: usize = 0;
    while i < n_rs
        invariant
            i <= n_rs,
            n_rs == rs@.len(),
            n_rs == gammas_rs@.len(),
            n_rs == messages.len(),
            bc.gammas == gammas_rs@ + gammas_pd@,
            targets == claim_targets(bc, messages, values_spec),
            tf == (|k: int| targets[k]),
            forall|k: int|
                0 <= k < n_rs ==> (#[trigger] rs@[k]).1.sumcheck_claim == switched_claim(
                    messages[k],
                    bc.weights[k],
                ),
            target_combined == sum(i as nat, tf),
        decreases n_rs - i,
    {
        assert(sum((i + 1) as nat, tf) == sum(i as nat, tf) + tf(i as int));
        assert(bc.gammas[i as int] == gammas_rs@[i as int]);
        assert(rs@[i as int].1.sumcheck_claim == switched_claim(
            messages[i as int],
            bc.weights[i as int],
        ));
        target_combined = target_combined + gammas_rs[i] * rs[i].1.sumcheck_claim;
        i = i + 1;
    }
    let mut k: usize = 0;
    while k < n_pd
        invariant
            k <= n_pd,
            n_pd == values@.len(),
            n_pd == gammas_pd@.len(),
            n_rs == gammas_rs@.len(),
            n_rs == messages.len(),
            values@ == values_spec,
            bc.gammas == gammas_rs@ + gammas_pd@,
            targets == claim_targets(bc, messages, values_spec),
            tf == (|k: int| targets[k]),
            target_combined == sum((n_rs + k) as nat, tf),
        decreases n_pd - k,
    {
        assert(sum((n_rs + k + 1) as nat, tf) == sum((n_rs + k) as nat, tf) + tf(n_rs + k));
        assert(bc.gammas[n_rs + k] == gammas_pd@[k as int]);
        target_combined = target_combined + gammas_pd[k] * values[k];
        k = k + 1;
    }
    // 4. The dense part of the combined table, and the first round's message.
    let half: usize = l / 2;
    let mut b_combined: Vec<F128> = Vec::with_capacity(l);
    let mut u_0 = F128::zero();
    let mut u_2 = F128::zero();
    let ghost dense = |j: int|
        sum((n_rs + n_pd) as nat, dense_term(rs@, packed_direct@, gammas_pd@, j));
    let ghost f0 = |i: int| packed_witness@[2 * i] * dense(2 * i);
    let ghost f2 = |i: int|
        (packed_witness@[2 * i] + packed_witness@[2 * i + 1]) * (dense(2 * i) + dense(2 * i + 1));
    let mut i: usize = 0;
    while i < half
        invariant
            i <= half,
            l == 2 * half,
            l == packed_witness@.len(),
            n_rs == rs@.len(),
            n_pd == packed_direct@.len(),
            n_pd == gammas_pd@.len(),
            forall|k: int|
                0 <= k < rs@.len() ==> (#[trigger] rs@[k]).1.rs_eq_ind.wf()
                    && rs@[k].1.rs_eq_ind.size() == l,
            forall|k: int| 0 <= k < packed_direct@.len() ==> (#[trigger] packed_direct@[k]).fits(l as nat),
            dense == (|j: int|
                sum((n_rs + n_pd) as nat, dense_term(rs@, packed_direct@, gammas_pd@, j))),
            f0 == (|i: int| packed_witness@[2 * i] * dense(2 * i)),
            f2 == (|i: int|
                (packed_witness@[2 * i] + packed_witness@[2 * i + 1]) * (dense(2 * i) + dense(
                    2 * i + 1,
                ))),
            b_combined@.len() == 2 * i,
            forall|j: int| 0 <= j < 2 * i ==> #[trigger] b_combined@[j] == dense(j),
            u_0 == sum(i as nat, f0),
            u_2 == sum(i as nat, f2),
        decreases half - i,
    {
        let b0 = dense_sum(&rs, packed_direct, &gammas_pd, 2 * i, Ghost(l as nat));
        let b1 = dense_sum(&rs, packed_direct, &gammas_pd, 2 * i + 1, Ghost(l as nat));
        proof {
            assert(b0 == dense(2 * i) && b1 == dense(2 * i + 1));
            assert(sum((i + 1) as nat, f0) == sum(i as nat, f0) + f0(i as int));
            assert(sum((i + 1) as nat, f2) == sum(i as nat, f2) + f2(i as int));
        }
        b_combined.push(b0);
        b_combined.push(b1);
        let a0 = packed_witness[2 * i];
        let a1 = packed_witness[2 * i + 1];
        u_0 = u_0 + a0 * b0;
        u_2 = u_2 + (a0 + a1) * (b0 + b1);
        i = i + 1;
    }
    proof {
        let b = b_combined@;
        let a = packed_witness@;
        lemma_sum_ext(half as nat, f0, |i: int| a[2 * i] * b[2 * i]);
        lemma_sum_ext(
            half as nat,
            f2,
            |i: int| (a[2 * i] + a[2 * i + 1]) * (b[2 * i] + b[2 * i + 1]),
        );
        assert forall|j: int| 0 <= j < l implies #[trigger] b_combined@[j] == dense(j) + sum(
            0,
            sparse_term(rs@, packed_direct@, gammas_pd@, j),
        ) by {
            lemma_add_zero(dense(j));
        }
    }
    // 5. The sparse claims.
    let mut i: usize = 0;
    while i < n_rs
        invariant
            i <= n_rs,
            l % 2 == 0,
            l == packed_witness@.len(),
            l == b_combined@.len(),
            n_rs == rs@.len(),
            forall|k: int|
                0 <= k < rs@.len() ==> (#[trigger] rs@[k]).1.rs_eq_ind.wf()
                    && rs@[k].1.rs_eq_ind.size() == l,
            forall|j: int|
                0 <= j < l ==> #[trigger] b_combined@[j] == dense(j) + sum(
                    i as nat,
                    sparse_term(rs@, packed_direct@, gammas_pd@, j),
                ),
            (u_0, u_2) == low_message(packed_witness@, b_combined@),
        decreases n_rs - i,
    {
        let ghost before = b_combined@;
        assert(rs@[i as int].1.rs_eq_ind.wf());
        match &rs[i].1.rs_eq_ind {
            RsEqInd::Sparse { entries, len } => {
                let m = scatter_entries(&mut b_combined, packed_witness, entries, u_0, u_2);
                u_0 = m.0;
                u_2 = m.1;
            },
            _ => {},
        }
        proof {
            assert forall|j: int| 0 <= j < l implies #[trigger] b_combined@[j] == dense(j) + sum(
                (i + 1) as nat,
                sparse_term(rs@, packed_direct@, gammas_pd@, j),
            ) by {
                let f = sparse_term(rs@, packed_direct@, gammas_pd@, j);
                assert(before[j] == dense(j) + sum(i as nat, f));
                assert(sum((i + 1) as nat, f) == sum(i as nat, f) + f(i as int));
                lemma_add_rules(dense(j), sum(i as nat, f), f(i as int), f(i as int));
                lemma_add_zero(sum(i as nat, f));
            }
        }
        i = i + 1;
    }
    let mut k: usize = 0;
    while k < n_pd
        invariant
            k <= n_pd,
            l % 2 == 0,
            l == packed_witness@.len(),
            l == b_combined@.len(),
            n_rs == rs@.len(),
            n_pd == packed_direct@.len(),
            n_pd == gammas_pd@.len(),
            forall|k: int| 0 <= k < packed_direct@.len() ==> (#[trigger] packed_direct@[k]).fits(l as nat),
            forall|j: int|
                0 <= j < l ==> #[trigger] b_combined@[j] == dense(j) + sum(
                    (n_rs + k) as nat,
                    sparse_term(rs@, packed_direct@, gammas_pd@, j),
                ),
            (u_0, u_2) == low_message(packed_witness@, b_combined@),
        decreases n_pd - k,
    {
        let ghost before = b_combined@;
        assert(packed_direct@[k as int].fits(l as nat));
        let g = gammas_pd[k];
        match &packed_direct[k].eq_ind {
            DirectEqInd::Sparse(eq) => {
                let (du0, du2) = sparse_scatter_add_parallel(
                    &mut b_combined,
                    packed_witness,
                    eq,
                    g,
                );
                u_0 = u_0 + du0;
                u_2 = u_2 + du2;
            },
            DirectEqInd::Dense(v) => {},
        }
        proof {
            lemma_mul_units(g);
            assert forall|j: int| 0 <= j < l implies #[trigger] b_combined@[j] == dense(j) + sum(
                (n_rs + k + 1) as nat,
                sparse_term(rs@, packed_direct@, gammas_pd@, j),
            ) by {
                let f = sparse_term(rs@, packed_direct@, gammas_pd@, j);
                let m = (n_rs + k) as nat;
                assert(before[j] == dense(j) + sum(m, f));
                assert(sum(m + 1, f) == sum(m, f) + f(m as int));
                lemma_add_rules(dense(j), sum(m, f), f(m as int), f(m as int));
                lemma_add_zero(sum(m, f));
            }
        }
        k = k + 1;
    }
    proof {
        let n = (n_rs + n_pd) as nat;
        assert forall|j: int| 0 <= j < l implies #[trigger] b_combined@[j] == combined(
            tables,
            l as nat,
        )[j] by {
            let d = dense_term(rs@, packed_direct@, gammas_pd@, j);
            let s = sparse_term(rs@, packed_direct@, gammas_pd@, j);
            lemma_sum_add(n, d, s);
            let both = |k: int| d(k) + s(k);
            let e = entry_of(tables, j);
            assert forall|k: int| 0 <= k < n implies #[trigger] both(k) == e(k) by {
                if k < n_rs {
                    assert(rs@[k].1.rs_eq_ind.stands_for(tables[k]));
                    assert(tables[k][j] == d(k) + s(k));
                } else {
                    let q = k - n_rs;
                    assert(packed_direct@[q].fits(l as nat));
                    let eq = packed_direct@[q].eq_ind;
                    let g = gammas_pd@[q];
                    assert(bc.gammas[k] == g);
                    assert(tables[k][j] == g * eq.table()[j]);
                    lemma_mul_units(g);
                    lemma_add_zero(g * eq.table()[j]);
                }
            }
            lemma_sum_ext(n, both, e);
        }
        assert(b_combined@ =~= combined(tables, l as nat));
    }
    let mut ring_switches: Vec<RingSwitchProof> = Vec::with_capacity(n_rs);
    let mut i: usize = 0;
    while i < n_rs
        invariant
            i <= n_rs,
            n_rs == rs@.len(),
            n_rs == messages.len(),
            forall|k: int| 0 <= k < n_rs ==> (#[trigger] rs@[k]).0.s_hat_v@ == messages[k],
            ring_switches@.len() == i,
            forall|k: int| 0 <= k < i ==> (#[trigger] ring_switches@[k]).s_hat_v@ == messages[k],
        decreases n_rs - i,
    {
        assert(rs@[i as int].0.s_hat_v@ == messages[i as int]);
        let s_hat_v = vstd::slice::slice_to_vec(&rs[i].0.s_hat_v);
        ring_switches.push(RingSwitchProof { s_hat_v });
        i = i + 1;
    }
    CombinedClaim { ring_switches, b_combined, target_combined, round0_prime: (u_0, u_2) }
}

/// The claims are on a witness of the given size, and there is one.
pub open spec fn combine_inputs_fit(
    z: Seq<F128>,
    x_outers: Seq<&[F128]>,
    precomputed: Seq<Option<&[F128]>>,
    pd: Seq<PackedDirectClaim>,
    padding: PaddingSpec,
) -> bool {
    &&& x_outers.len() + pd.len() > 0
    &&& x_outers.len() + pd.len() <= usize::MAX
    &&& z.len() % 2 == 0
    &&& padding.wf()
    &&& precomputed.len() == 0 || precomputed.len() == x_outers.len()
    &&& forall|i: int|
        0 <= i < x_outers.len() ==> (#[trigger] x_outers[i])@.len() >= 1 && z.len() == pow2(
            (x_outers[i]@.len() - 1) as nat,
        )
    &&& forall|i: int|
        0 <= i < precomputed.len() && given(precomputed, i) is Some ==> (#[trigger] given(
            precomputed,
            i,
        ))->Some_0.len() == 128
    &&& forall|k: int| 0 <= k < pd.len() ==> (#[trigger] pd[k]).fits(z.len())
}

} // verus!
