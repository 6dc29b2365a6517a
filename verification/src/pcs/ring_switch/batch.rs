//! Ring-switching of several claims at once.
use vstd::arithmetic::power2::{lemma_pow2_adds, lemma_pow2_pos, lemma_pow2_unfold, pow2};
use vstd::prelude::*;
use vstd::slice::slice_subrange;
use crate::algebra::{lemma_sum_ext, sum};
use crate::challenger::Challenger;
use crate::field::gf2_128::{lemma_add_zero, lemma_mul_associates, lemma_mul_units};
use crate::field::F128;
use crate::index::{index_bit, lemma_pow2_fits};
use crate::pcs::basefold::state_after_samples;
use crate::pcs::ring_switch::sparse::{
    build_eq_sparse, live_positions, scattered, SparseEqTensor,
};
use crate::pcs::ring_switch::{
    after_switch, bit_combination, build_byte_table, combine_columns, fold_1b_rows, fold_one_slot,
    is_byte_table, kept, lemma_slot_value, lemma_zero_bits, partial_evaluations, slot_value,
    switch_point, switch_weights, switched_claim, switched_table, tail, RingSwitchProof,
};
use crate::zerocheck::multilinear::{build_eq_table, eq_factor, eq_table, eq_weight};
use crate::zerocheck::PaddingSpec;

verus! {

/// A switched table in the form in which it is cheapest to add up.
#[derive(Clone, Debug)]
pub enum RsEqInd {
    /// Every entry.
    Dense(Vec<F128>),
    /// The factors of the weights and the byte tables that fold them: entry
    /// `j` is the fold of `eq_lo[j mod B] · eq_hi[j / B]` for `B = eq_lo.len()`.
    DeferredDense { eq_lo: Vec<F128>, eq_hi: Vec<F128>, table: Vec<F128> },
    /// The entries that are not zero, with their indices.
    Sparse { entries: Vec<(usize, F128)>, len: usize },
}

pub open spec fn entries_term(entries: Seq<(usize, F128)>, j: int) -> spec_fn(int) -> F128 {
    |c: int|
        if entries[c].0 == j {
            entries[c].1
        } else {
            F128::zero()
        }
}

/// What the entries add to index `j`.
pub open spec fn entries_value(entries: Seq<(usize, F128)>, j: int) -> F128 {
    sum(entries.len(), entries_term(entries, j))
}

impl RsEqInd {
    pub open spec fn size(&self) -> nat {
        match self {
            RsEqInd::Dense(v) => v@.len(),
            RsEqInd::DeferredDense { eq_lo, eq_hi, table } => eq_lo@.len() * eq_hi@.len(),
            RsEqInd::Sparse { entries, len } => *len as nat,
        }
    }

    pub open spec fn wf(&self) -> bool {
        match self {
            RsEqInd::Dense(v) => true,
            RsEqInd::DeferredDense { eq_lo, eq_hi, table } => {
                &&& eq_lo@.len() > 0
                &&& table@.len() == 4096
            },
            RsEqInd::Sparse { entries, len } => forall|c: int|
                0 <= c < entries@.len() ==> (#[trigger] entries@[c]).0 < *len,
        }
    }

    /// Entry `j`, unless the form is sparse.
    pub open spec fn dense_part(&self, j: int) -> F128 {
        match self {
            RsEqInd::Dense(v) => v@[j],
            RsEqInd::DeferredDense { eq_lo, eq_hi, table } => slot_value(
                eq_lo@[j % (eq_lo@.len() as int)] * eq_hi@[j / (eq_lo@.len() as int)],
                table@,
            ),
            RsEqInd::Sparse { entries, len } => F128::zero(),
        }
    }

    /// Entry `j`, if the form is sparse.
    pub open spec fn sparse_part(&self, j: int) -> F128 {
        match self {
            RsEqInd::Sparse { entries, len } => entries_value(entries@, j),
            _ => F128::zero(),
        }
    }

    /// The table that the form stands for.
    pub open spec fn stands_for(&self, t: Seq<F128>) -> bool {
        &&& self.wf()
        &&& self.size() == t.len()
        &&& forall|j: int|
            0 <= j < t.len() ==> self.dense_part(j) + self.sparse_part(j) == #[trigger] t[j]
    }

    /// Entry `j`, unless the form is sparse: deferred entries are folded here.
    pub fn dense_slot(&self, j: usize) -> (r: F128)
        requires
            self.wf(),
            j < self.size(),
        ensures
            r == self.dense_part(j as int),
    {
        match self {
            RsEqInd::Dense(v) => v[j],
            RsEqInd::DeferredDense { eq_lo, eq_hi, table } => {
                let b: usize = eq_lo.len();
                proof {
                    let (bi, h, ji) = (b as int, eq_hi@.len() as int, j as int);
                    vstd::arithmetic::div_mod::lemma_fundamental_div_mod(ji, bi);
                    vstd::arithmetic::div_mod::lemma_mod_bound(ji, bi);
                    assert(0 <= ji / bi < h) by (nonlinear_arith)
                        requires
                            ji == bi * (ji / bi) + ji % bi,
                            0 <= ji % bi < bi,
                            0 <= ji < bi * h,
                    ;
                }
                fold_one_slot(eq_lo[j % b] * eq_hi[j / b], table)
            },
            RsEqInd::Sparse { entries, len } => F128::zero(),
        }
    }
}

/// What the batched prover hands on for one claim.
#[derive(Clone, Debug)]
pub struct RingSwitchBatchOutput {
    /// The switched table, scaled by the claim's coefficient.
    pub rs_eq_ind: RsEqInd,
    pub sumcheck_claim: F128,
}

// ---------------------------------------------------------------------------
// The transcript
// ---------------------------------------------------------------------------

/// The state after the ring-switching of the first `i` claims.
pub open spec fn switched_state<Ch: Challenger>(
    s: Ch::State,
    messages: Seq<Seq<F128>>,
    i: nat,
) -> Ch::State
    decreases i,
{
    if i == 0 {
        s
    } else {
        after_switch::<Ch>(
            switched_state::<Ch>(s, messages, (i - 1) as nat),
            messages[i - 1],
        )
    }
}

/// The weights of the columns for claim `i`.
pub open spec fn claim_weights<Ch: Challenger>(
    s: Ch::State,
    messages: Seq<Seq<F128>>,
    i: int,
) -> Seq<F128> {
    eq_table(switch_point::<Ch>(switched_state::<Ch>(s, messages, i as nat), messages[i]))
}

/// `n` challenges sampled one by one.
pub open spec fn samples<Ch: Challenger>(s: Ch::State, n: nat) -> Seq<F128> {
    Seq::new(n, |i: int| Ch::challenge(state_after_samples::<Ch>(s, i as nat)))
}

/// Sample `n` challenges one by one.
pub(crate) fn sample_each<Ch: Challenger>(n: usize, challenger: &mut Ch) -> (out: Vec<F128>)
    ensures
        out@ == samples::<Ch>(old(challenger).state(), n as nat),
        out@.len() == n,
        final(challenger).state() == state_after_samples::<Ch>(
            old(challenger).state(),
            n as nat,
        ),
{
    let ghost s = challenger.state();
    let mut out: Vec<F128> = Vec::with_capacity(n);
    let mut i: usize = 0;
    while i < n
        invariant
            i <= n,
            challenger.state() == state_after_samples::<Ch>(s, i as nat),
            out@.len() == i,
            forall|q: int| 0 <= q < i ==> #[trigger] out@[q] == samples::<Ch>(s, n as nat)[q],
        decreases n - i,
    {
        out.push(challenger.sample_f128());
        i = i + 1;
    }
    assert(out@ =~= samples::<Ch>(s, n as nat));
    out
}

/// Challenges sampled in two goes are those sampled in one.
pub proof fn lemma_samples_split<Ch: Challenger>(s: Ch::State, n: nat, k: nat)
    ensures
        samples::<Ch>(s, n) + samples::<Ch>(state_after_samples::<Ch>(s, n), k) == samples::<Ch>(
            s,
            n + k,
        ),
        state_after_samples::<Ch>(state_after_samples::<Ch>(s, n), k) == state_after_samples::<Ch>(
            s,
            n + k,
        ),
{
    assert forall|i: nat| i <= k implies #[trigger] state_after_samples::<Ch>(
        state_after_samples::<Ch>(s, n),
        i,
    ) == state_after_samples::<Ch>(s, n + i) by {
        lemma_states_split::<Ch>(s, n, i);
    }
    assert(samples::<Ch>(s, n) + samples::<Ch>(state_after_samples::<Ch>(s, n), k) =~= samples::<
        Ch,
    >(s, n + k));
}

proof fn lemma_states_split<Ch: Challenger>(s: Ch::State, n: nat, k: nat)
    ensures
        state_after_samples::<Ch>(state_after_samples::<Ch>(s, n), k) == state_after_samples::<Ch>(
            s,
            n + k,
        ),
    decreases k,
{
    if k > 0 {
        lemma_states_split::<Ch>(s, n, (k - 1) as nat);
    }
}

/// Weights times a coefficient.
pub open spec fn scaled(w: Seq<F128>, g: F128) -> Seq<F128> {
    Seq::new(w.len(), |u: int| g * w[u])
}

/// The points, as sequences.
pub open spec fn views(x: Seq<&[F128]>) -> Seq<Seq<F128>> {
    Seq::new(x.len(), |i: int| x[i]@)
}

/// The message that is given for claim `i`, if one is.
pub open spec fn given(precomputed: Seq<Option<&[F128]>>, i: int) -> Option<Seq<F128>> {
    if precomputed.len() == 0 {
        None
    } else {
        match precomputed[i] {
            Some(v) => Some(v@),
            None => None,
        }
    }
}

/// The message of a claim: the partial evaluations, unless it is given.
pub open spec fn claim_message(
    z: Seq<F128>,
    padding: PaddingSpec,
    x_outer: Seq<F128>,
    pre: Option<Seq<F128>>,
) -> Seq<F128> {
    match pre {
        Some(v) => v,
        None => partial_evaluations(kept(z, padding), eq_table(tail(x_outer))),
    }
}

/// The messages of all claims.
pub open spec fn claim_messages(
    z: Seq<F128>,
    padding: PaddingSpec,
    x_outers: Seq<Seq<F128>>,
    precomputed: Seq<Option<&[F128]>>,
) -> Seq<Seq<F128>> {
    Seq::new(
        x_outers.len(),
        |i: int| claim_message(z, padding, x_outers[i], given(precomputed, i)),
    )
}

/// The messages depend on the earlier ones alone.
pub proof fn lemma_switched_state_prefix<Ch: Challenger>(
    s: Ch::State,
    a: Seq<Seq<F128>>,
    b: Seq<Seq<F128>>,
    i: nat,
)
    requires
        i <= a.len(),
        i <= b.len(),
        forall|k: int| 0 <= k < i ==> a[k] == b[k],
    ensures
        switched_state::<Ch>(s, a, i) == switched_state::<Ch>(s, b, i),
    decreases i,
{
    if i > 0 {
        lemma_switched_state_prefix::<Ch>(s, a, b, (i - 1) as nat);
    }
}

// ---------------------------------------------------------------------------
// Building the tables
// ---------------------------------------------------------------------------

/// The weights of a point in two parts.
pub proof fn lemma_eq_weight_split(lo: Seq<F128>, hi: Seq<F128>, i: int)
    requires
        0 <= i < pow2(lo.len() + hi.len()),
    ensures
        eq_weight(lo + hi, i as nat) == eq_weight(lo, (i % (pow2(lo.len()) as int)) as nat)
            * eq_weight(hi, (i / (pow2(lo.len()) as int)) as nat),
{
    let b = pow2(lo.len()) as int;
    lemma_pow2_pos(lo.len());
    vstd::arithmetic::div_mod::lemma_mod_bound(i, b);
    vstd::arithmetic::div_mod::lemma_fundamental_div_mod(i, b);
    assert(i / b >= 0) by (nonlinear_arith)
        requires
            i == b * (i / b) + i % b,
            0 <= i,
            i % b < b,
            b >= 1,
    ;
    lemma_eq_weight_parts(lo, hi, i as nat, (i % b) as nat, (i / b) as nat);
}

proof fn lemma_eq_weight_parts(lo: Seq<F128>, hi: Seq<F128>, i: nat, a: nat, c: nat)
    requires
        i == a + pow2(lo.len()) * c,
        a < pow2(lo.len()),
    ensures
        eq_weight(lo + hi, i) == eq_weight(lo, a) * eq_weight(hi, c),
    decreases hi.len(),
{
    let n = lo.len();
    if hi.len() == 0 {
        assert(lo + hi =~= lo);
        lemma_mul_units(eq_weight(lo, a));
        assert forall|j: nat| j < n implies #[trigger] index_bit(i, j) == index_bit(a, j) by {
            lemma_low_index_bit(a, c, n, j);
        }
        crate::zerocheck::multilinear::lemma_eq_weight_low_bits(lo, i, a);
    } else {
        let rest = hi.drop_last();
        lemma_eq_weight_parts(lo, rest, i, a, c);
        assert((lo + hi).drop_last() =~= lo + rest);
        assert((lo + hi).last() == hi.last());
        let k = rest.len();
        assert(index_bit(i, n + k) == index_bit(c, k)) by {
            lemma_pow2_adds(n, k);
            lemma_pow2_pos(n);
            lemma_pow2_pos(k);
            vstd::arithmetic::div_mod::lemma_div_denominator(
                i as int,
                pow2(n) as int,
                pow2(k) as int,
            );
            assert(pow2(n) * c == c * pow2(n)) by (nonlinear_arith);
            vstd::arithmetic::div_mod::lemma_fundamental_div_mod_converse(
                i as int,
                pow2(n) as int,
                c as int,
                a as int,
            );
        }
        lemma_mul_associates(
            eq_weight(lo, a),
            eq_weight(rest, c),
            eq_factor(hi.last(), index_bit(c, k)),
        );
    }
}

/// The low bits of a number in two parts.
proof fn lemma_low_index_bit(a: nat, c: nat, n: nat, j: nat)
    requires
        j < n,
    ensures
        index_bit(a + pow2(n) * c, j) == index_bit(a, j),
{
    let d = (n - j - 1) as nat;
    lemma_pow2_adds(j, d + 1);
    lemma_pow2_unfold(d + 1);
    lemma_pow2_pos(j);
    let (p, q) = (pow2(j) as int, pow2(d) as int);
    let x = a as int;
    let m = q * c;
    assert(pow2(n) * c == p * (2 * m)) by (nonlinear_arith)
        requires
            pow2(n) == p * (2 * q),
            m == q * c,
    ;
    let qa = x / p;
    vstd::arithmetic::div_mod::lemma_fundamental_div_mod(x, p);
    vstd::arithmetic::div_mod::lemma_mod_bound(x, p);
    assert(x + p * (2 * m) == (qa + 2 * m) * p + x % p) by (nonlinear_arith)
        requires
            x == p * qa + x % p,
    ;
    vstd::arithmetic::div_mod::lemma_fundamental_div_mod_converse(
        x + p * (2 * m),
        p,
        qa + 2 * m,
        x % p,
    );
}

/// Build the switched table of a point in its cheapest form: the entries
/// alone where zero coordinates make the others vanish, factors and byte
/// tables where there are coordinates enough to split.
pub(crate) fn build_rs_eq_ind(point: &[F128], weights: &[F128]) -> (out: RsEqInd)
    requires
        weights@.len() == 128,
        pow2(point@.len()) <= usize::MAX,
    ensures
        out.stands_for(switched_table(eq_table(point@), weights@)),
{
    let n: usize = point.len();
    let ghost t = switched_table(eq_table(point@), weights@);
    let table = build_byte_table(weights);
    let mut has_zero = false;
    let mut i: usize = 0;
    while i < n
        invariant
            i <= n,
            n == point@.len(),
        decreases n - i,
    {
        if point[i].is_zero() {
            has_zero = true;
        }
        i = i + 1;
    }
    proof {
        lemma_pow2_fits(n as nat);
    }
    if has_zero {
        let eq = build_eq_sparse(point);
        return build_sparse(&eq, weights, &table, Ghost(point@));
    }
    if n >= 2 {
        let lo: usize = n / 2;
        let (lo_part, hi_part) = (slice_subrange(point, 0, lo), slice_subrange(point, lo, n));
        proof {
            lemma_pow2_adds(lo as nat, (n - lo) as nat);
            lemma_pow2_pos(lo as nat);
            lemma_pow2_pos((n - lo) as nat);
            let (x, y) = (pow2(lo as nat) as int, pow2((n - lo) as nat) as int);
            assert(x <= x * y && y <= x * y) by (nonlinear_arith)
                requires
                    x >= 1,
                    y >= 1,
            ;
        }
        let eq_lo = build_eq_table(lo_part);
        let eq_hi = build_eq_table(hi_part);
        let out = RsEqInd::DeferredDense { eq_lo, eq_hi, table };
        proof {
            assert(lo_part@ + hi_part@ =~= point@);
            assert forall|j: int| 0 <= j < t.len() implies out.dense_part(j) + out.sparse_part(j)
                == #[trigger] t[j] by {
                lemma_eq_weight_split(lo_part@, hi_part@, j);
                let b = pow2(lo as nat) as int;
                let h = pow2((n - lo) as nat) as int;
                vstd::arithmetic::div_mod::lemma_mod_bound(j, b);
                vstd::arithmetic::div_mod::lemma_fundamental_div_mod(j, b);
                assert(0 <= j / b < h) by (nonlinear_arith)
                    requires
                        j == b * (j / b) + j % b,
                        0 <= j % b < b,
                        0 <= j < b * h,
                ;
                lemma_slot_value(eq_lo@[j % b] * eq_hi@[j / b], table@, weights@);
                lemma_add_zero(t[j]);
            }
        }
        return out;
    }
    let eq = build_eq_table(point);
    let len: usize = eq.len();
    let mut v: Vec<F128> = Vec::with_capacity(len);
    let mut j: usize = 0;
    while j < len
        invariant
            j <= len,
            len == eq@.len(),
            eq@ == eq_table(point@),
            t == switched_table(eq_table(point@), weights@),
            weights@.len() == 128,
            is_byte_table(table@, weights@),
            v@.len() == j,
            forall|q: int| 0 <= q < j ==> #[trigger] v@[q] == t[q],
        decreases len - j,
    {
        proof {
            lemma_slot_value(eq@[j as int], table@, weights@);
        }
        v.push(fold_one_slot(eq[j], &table));
        j = j + 1;
    }
    let out = RsEqInd::Dense(v);
    proof {
        assert forall|j: int| 0 <= j < t.len() implies out.dense_part(j) + out.sparse_part(j)
            == #[trigger] t[j] by {
            lemma_add_zero(t[j]);
        }
    }
    out
}

fn build_sparse(
    eq: &SparseEqTensor,
    weights: &[F128],
    table: &Vec<F128>,
    Ghost(point): Ghost<Seq<F128>>,
) -> (out: RsEqInd)
    requires
        weights@.len() == 128,
        is_byte_table(table@, weights@),
        eq.wf(),
        eq.log_len == point.len(),
        eq.table() == eq_table(point),
    ensures
        out.stands_for(switched_table(eq_table(point), weights@)),
{
    let ghost t = switched_table(eq_table(point), weights@);
    let n: usize = eq.live_tensor.len();
    let mut entries: Vec<(usize, F128)> = Vec::with_capacity(n);
    let mut c: usize = 0;
    while c < n
        invariant
            c <= n,
            n == eq.live_tensor@.len(),
            eq.wf(),
            weights@.len() == 128,
            is_byte_table(table@, weights@),
            entries@.len() == c,
            forall|q: int|
                0 <= q < c ==> (#[trigger] entries@[q]).0 == scattered(
                    eq.live_positions@,
                    q as nat,
                ) && entries@[q].0 < pow2(eq.log_len as nat) && entries@[q].1 == bit_combination(
                    eq.live_tensor@[q],
                    weights@,
                ),
        decreases n - c,
    {
        proof {
            lemma_slot_value(eq.live_tensor@[c as int], table@, weights@);
        }
        entries.push((eq.scatter_idx(c), fold_one_slot(eq.live_tensor[c], table)));
        c = c + 1;
    }
    let len: usize = crate::index::pow2_usize(eq.log_len);
    let out = RsEqInd::Sparse { entries, len };
    proof {
        assert forall|j: int| 0 <= j < t.len() implies out.dense_part(j) + out.sparse_part(j)
            == #[trigger] t[j] by {
            lemma_add_zero(t[j]);
            let f = eq.entry_term(j);
            let g = entries_term(entries@, j);
            assert(eq.table()[j] == sum(n as nat, f));
            lemma_zero_combination(weights@);
            assert forall|c: int| 0 <= c < n implies #[trigger] g(c) == bit_combination(
                f(c),
                weights@,
            ) by {
                assert(entries@[c].0 == scattered(eq.live_positions@, c as nat));
            }
            lemma_folded_sum(n as nat, f, g, weights@);
        }
    }
    out
}

/// Folding commutes with sums.
proof fn lemma_folded_sum(
    n: nat,
    f: spec_fn(int) -> F128,
    g: spec_fn(int) -> F128,
    w: Seq<F128>,
)
    requires
        forall|c: int| 0 <= c < n ==> #[trigger] g(c) == bit_combination(f(c), w),
    ensures
        sum(n, g) == bit_combination(sum(n, f), w),
    decreases n,
{
    if n == 0 {
        lemma_zero_combination(w);
    } else {
        lemma_folded_sum((n - 1) as nat, f, g, w);
        lemma_combination_of_sum(sum((n - 1) as nat, f), f(n - 1), w);
        assert(g(n - 1) == bit_combination(f(n - 1), w));
    }
}

/// Nothing is combined for zero.
pub proof fn lemma_zero_combination(w: Seq<F128>)
    ensures
        bit_combination(F128::zero(), w) == F128::zero(),
{
    let f = crate::pcs::ring_switch::bit_term(F128::zero(), w);
    assert forall|u: int| 0 <= u < 128 implies #[trigger] f(u) == F128::zero() by {
        lemma_zero_bits(u);
        lemma_mul_units(w[u]);
    }
    crate::algebra::lemma_sum_zero(128, f);
}

/// The combination of a sum.
pub proof fn lemma_combination_of_sum(a: F128, b: F128, w: Seq<F128>)
    ensures
        bit_combination(a + b, w) == bit_combination(a, w) + bit_combination(b, w),
{
    let f = crate::pcs::ring_switch::bit_term(a, w);
    let g = crate::pcs::ring_switch::bit_term(b, w);
    let h = crate::pcs::ring_switch::bit_term(a + b, w);
    crate::algebra::lemma_sum_add(128, f, g);
    let k = |u: int| f(u) + g(u);
    assert forall|u: int| 0 <= u < 128 implies #[trigger] h(u) == k(u) by {
        crate::pcs::ring_switch::laws::lemma_sum_coordinate(a, b, u);
        let (x, y) = (
            crate::pcs::pack::element_bit(a, u),
            crate::pcs::pack::element_bit(b, u),
        );
        crate::r1cs::laws::lemma_bit_value_xor(x, y);
        crate::field::gf2_128::lemma_mul_distributes(
            w[u],
            crate::r1cs::laws::bit_value(x),
            crate::r1cs::laws::bit_value(y),
        );
    }
    lemma_sum_ext(128, h, k);
}

/// Ring-switch all claims against one witness: absorb each claim's message and
/// sample its point. A message that is given is not computed. Of each claim the
/// message and the weights of its columns are returned; the coefficients that the
/// claims are combined with are sampled later, once the whole batch is bound.
pub fn prove_batched_padded_with_precomputed<Ch: Challenger>(
    packed_witness: &[F128],
    x_outers: &[&[F128]],
    precomputed_s_hat_v: &[Option<&[F128]>],
    padding: &PaddingSpec,
    challenger: &mut Ch,
) -> (parts: Vec<(Vec<F128>, Vec<F128>)>)
    requires
        padding.wf(),
        precomputed_s_hat_v@.len() == 0 || precomputed_s_hat_v@.len() == x_outers@.len(),
        forall|i: int|
            0 <= i < x_outers@.len() ==> (#[trigger] x_outers@[i])@.len() >= 1
                && packed_witness@.len() == pow2((x_outers@[i]@.len() - 1) as nat),
        forall|i: int|
            0 <= i < precomputed_s_hat_v@.len() && given(precomputed_s_hat_v@, i) is Some
                ==> (#[trigger] given(precomputed_s_hat_v@, i))->Some_0.len() == 128,
    ensures
        ({
            let s = old(challenger).state();
            let xs = views(x_outers@);
            let messages = claim_messages(
                packed_witness@,
                *padding,
                xs,
                precomputed_s_hat_v@,
            );
            let n = xs.len();
            &&& parts@.len() == n
            &&& final(challenger).state() == switched_state::<Ch>(s, messages, n)
            &&& forall|i: int|
                0 <= i < n ==> (#[trigger] parts@[i]).0@ == messages[i] && parts@[i].0@.len()
                    == 128
            &&& forall|i: int|
                0 <= i < n ==> (#[trigger] parts@[i]).1@ == claim_weights::<Ch>(s, messages, i)
                    && parts@[i].1@.len() == 128
        }),
{
    let ghost s = challenger.state();
    let ghost xs = views(x_outers@);
    let ghost messages = claim_messages(packed_witness@, *padding, xs, precomputed_s_hat_v@);
    let n: usize = x_outers.len();
    let z_len: usize = packed_witness.len();
    let no_pre: bool = precomputed_s_hat_v.len() == 0;
    let mut parts: Vec<(Vec<F128>, Vec<F128>)> = Vec::with_capacity(n);
    let mut i: usize = 0;
    while i < n
        invariant
            i <= n,
            n == x_outers@.len(),
            z_len == packed_witness@.len(),
            no_pre == (precomputed_s_hat_v@.len() == 0),
            padding.wf(),
            precomputed_s_hat_v@.len() == 0 || precomputed_s_hat_v@.len() == x_outers@.len(),
            forall|i: int|
                0 <= i < x_outers@.len() ==> (#[trigger] x_outers@[i])@.len() >= 1
                    && packed_witness@.len() == pow2((x_outers@[i]@.len() - 1) as nat),
            forall|i: int|
                0 <= i < precomputed_s_hat_v@.len() && given(precomputed_s_hat_v@, i) is Some
                    ==> (#[trigger] given(precomputed_s_hat_v@, i))->Some_0.len() == 128,
            xs == views(x_outers@),
            messages == claim_messages(packed_witness@, *padding, xs, precomputed_s_hat_v@),
            challenger.state() == switched_state::<Ch>(s, messages, i as nat),
            parts@.len() == i,
            forall|q: int|
                0 <= q < i ==> (#[trigger] parts@[q]).0@ == messages[q] && parts@[q].0@.len() == 128,
            forall|q: int|
                0 <= q < i ==> (#[trigger] parts@[q]).1@ == claim_weights::<Ch>(s, messages, q)
                    && parts@[q].1@.len() == 128,
        decreases n - i,
    {
        assert(x_outers@[i as int]@.len() >= 1);
        let x_outer = x_outers[i];
        let ghost g = given(precomputed_s_hat_v@, i as int);
        let pre: Option<&[F128]> = if no_pre {
            None
        } else {
            precomputed_s_hat_v[i]
        };
        let s_hat_v: Vec<F128> = match pre {
            Some(v) => {
                assert(g->Some_0 == v@);
                vstd::slice::slice_to_vec(v)
            },
            None => {
                let eq = build_eq_table(slice_subrange(x_outer, 1, x_outer.len()));
                fold_1b_rows(packed_witness, &eq, padding)
            },
        };
        assert(s_hat_v@ == messages[i as int]);
        let weights = switch_weights(&s_hat_v, challenger);
        parts.push((s_hat_v, weights));
        i = i + 1;
    }
    parts
}

/// The switched tables of the claims, each scaled by its coefficient.
pub fn scale_batched(
    parts: &Vec<(Vec<F128>, Vec<F128>)>,
    x_outers: &[&[F128]],
    gammas: &Vec<F128>,
) -> (out: Vec<(RingSwitchProof, RingSwitchBatchOutput)>)
    requires
        parts@.len() == x_outers@.len(),
        gammas@.len() == x_outers@.len(),
        forall|i: int|
            0 <= i < x_outers@.len() ==> (#[trigger] x_outers@[i])@.len() >= 1 && pow2(
                (x_outers@[i]@.len() - 1) as nat,
            ) <= usize::MAX,
        forall|i: int|
            0 <= i < parts@.len() ==> (#[trigger] parts@[i]).0@.len() == 128 && parts@[i].1@.len()
                == 128,
    ensures
        out@.len() == x_outers@.len(),
        forall|i: int|
            0 <= i < x_outers@.len() ==> {
                &&& (#[trigger] out@[i]).0.s_hat_v@ == parts@[i].0@
                &&& out@[i].1.sumcheck_claim == switched_claim(parts@[i].0@, parts@[i].1@)
                &&& out@[i].1.rs_eq_ind.stands_for(
                    switched_table(
                        eq_table(tail(x_outers@[i]@)),
                        scaled(parts@[i].1@, gammas@[i]),
                    ),
                )
            },
{
    let n: usize = x_outers.len();
    let mut out: Vec<(RingSwitchProof, RingSwitchBatchOutput)> = Vec::with_capacity(n);
    let mut i: usize = 0;
    while i < n
        invariant
            i <= n,
            n == x_outers@.len(),
            forall|i: int|
                0 <= i < x_outers@.len() ==> (#[trigger] x_outers@[i])@.len() >= 1 && pow2(
                    (x_outers@[i]@.len() - 1) as nat,
                ) <= usize::MAX,
            gammas@.len() == n,
            parts@.len() == n,
            forall|q: int|
                0 <= q < n ==> (#[trigger] parts@[q]).0@.len() == 128 && parts@[q].1@.len() == 128,
            out@.len() == i,
            forall|q: int|
                0 <= q < i ==> {
                    &&& (#[trigger] out@[q]).0.s_hat_v@ == parts@[q].0@
                    &&& out@[q].1.sumcheck_claim == switched_claim(parts@[q].0@, parts@[q].1@)
                    &&& out@[q].1.rs_eq_ind.stands_for(
                        switched_table(
                            eq_table(tail(x_outers@[q]@)),
                            scaled(parts@[q].1@, gammas@[q]),
                        ),
                    )
                },
        decreases n - i,
    {
        assert(x_outers@[i as int]@.len() >= 1);
        assert(parts@[i as int].0@.len() == 128);
        let x_outer = x_outers[i];
        let s_hat_v = &parts[i].0;
        let weights = &parts[i].1;
        let sumcheck_claim = combine_columns(s_hat_v, weights);
        let gamma = gammas[i];
        let mut baked: Vec<F128> = Vec::with_capacity(128);
        let mut u: usize = 0;
        while u < 128
            invariant
                u <= 128,
                weights@.len() == 128,
                baked@.len() == u,
                forall|q: int| 0 <= q < u ==> #[trigger] baked@[q] == gamma * weights@[q],
            decreases 128 - u,
        {
            baked.push(gamma * weights[u]);
            u = u + 1;
        }
        assert(baked@ =~= scaled(weights@, gamma));
        let point = slice_subrange(x_outer, 1, x_outer.len());
        assert(point@ == tail(x_outers@[i as int]@));
        let rs_eq_ind = build_rs_eq_ind(point, &baked);
        let s_hat_v = vstd::slice::slice_to_vec(s_hat_v);
        out.push(
            (RingSwitchProof { s_hat_v }, RingSwitchBatchOutput { rs_eq_ind, sumcheck_claim }),
        );
        i = i + 1;
    }
    out
}

} // verus!
