//! Committing to a packed witness: Reed–Solomon encoding and a Merkle tree.
use vstd::arithmetic::power2::{lemma_pow2_adds, lemma_pow2_pos, pow2};
use vstd::prelude::*;
use crate::field::F128;
use crate::hash::Hash32;
use crate::index::{lemma_log2, lemma_pow2_fits, pow2_usize};
use crate::merkle::{is_tree, leaf_hashes, merkle_root, merkle_tree};
use crate::ntt::additive_ntt_f128::{evals_of, standard_basis, AdditiveNttF128};
use crate::ntt::laws_f128::{lemma_zero_padding_layers_repeat, repeated, zero_padded};
use crate::pcs::fold::encoded;
use crate::pcs::pack::LOG_PACKING;

verus! {

/// Rounds that one FRI epoch folds.
pub const LOG_FRI_ARITY: usize = 6;

/// The parameters of a commitment.
#[derive(Clone, Copy, Debug, PartialEq, Eq)]
pub struct PcsParams {
    /// Log of the number of witness bits.
    pub m: usize,
    /// Log of the inverse of the code's rate.
    pub log_inv_rate: usize,
    /// Log of the number of interleaved lanes.
    pub log_batch_size: usize,
}

impl PcsParams {
    /// The dimensions fit together, and the codeword fits in memory.
    pub open spec fn wf(&self) -> bool {
        &&& self.m >= LOG_PACKING + self.log_batch_size
        &&& 1 <= self.code_dim() <= 64
        &&& pow2(self.code_dim()) * (2 * pow2(self.log_batch_size as nat)) <= usize::MAX
    }

    /// Log of the number of packed elements.
    pub open spec fn msg_log(&self) -> nat {
        (self.m - LOG_PACKING) as nat
    }

    /// Log of the number of codeword positions.
    pub open spec fn code_dim(&self) -> nat {
        (self.m - LOG_PACKING - self.log_batch_size + self.log_inv_rate) as nat
    }

    /// Log of the number of packed elements.
    pub fn log_msg_len(&self) -> (r: usize)
        requires
            self.m >= LOG_PACKING,
        ensures
            r == self.msg_log(),
    {
        self.m - LOG_PACKING
    }

    /// Log of the number of codeword positions.
    pub fn k_code(&self) -> (r: usize)
        requires
            self.m >= LOG_PACKING + self.log_batch_size,
            self.code_dim() <= usize::MAX,
        ensures
            r == self.code_dim(),
    {
        self.m - LOG_PACKING - self.log_batch_size + self.log_inv_rate
    }
}

/// A commitment: the root of the tree over the codeword.
#[derive(Clone, Copy, Debug, PartialEq, Eq)]
pub struct Commitment {
    pub root: Hash32,
    pub params: PcsParams,
}

/// What the prover keeps of a commitment.
#[derive(Clone, Debug)]
pub struct ProverData {
    pub codeword: Vec<F128>,
    pub merkle_tree: Vec<Hash32>,
}

/// The number of FRI epochs.
pub open spec fn epoch_count(log_dim: nat) -> nat {
    (log_dim + 5) / 6
}

/// The number of rounds of epoch `e`.
pub open spec fn epoch_arity(log_dim: nat, e: nat) -> nat {
    if log_dim - 6 * e < 6 {
        (log_dim - 6 * e) as nat
    } else {
        6
    }
}

/// Cut `log_dim` FRI rounds into epochs of [`LOG_FRI_ARITY`] rounds, the last
/// one taking what is left: `[6, 6, 5]` for 17.
pub fn compute_fri_arities(log_dim: usize) -> (arities: Vec<usize>)
    ensures
        arities@.len() == epoch_count(log_dim as nat),
        forall|e: int|
            0 <= e < arities@.len() ==> #[trigger] arities@[e] == epoch_arity(
                log_dim as nat,
                e as nat,
            ),
{
    let mut arities: Vec<usize> = Vec::new();
    let mut left: usize = log_dim;
    while left > 0
        invariant
            left <= log_dim,
            left == 0 ==> arities@.len() == epoch_count(log_dim as nat),
            left > 0 ==> left == log_dim - 6 * arities@.len(),
            forall|e: int|
                0 <= e < arities@.len() ==> #[trigger] arities@[e] == epoch_arity(
                    log_dim as nat,
                    e as nat,
                ),
        decreases left,
    {
        let a: usize = if left < LOG_FRI_ARITY {
            left
        } else {
            LOG_FRI_ARITY
        };
        arities.push(a);
        left = left - a;
    }
    arities
}

/// The first `n` epochs take `6·n` rounds, as long as there are rounds left.
pub open spec fn rounds_of(log_dim: nat, n: nat) -> nat
    decreases n,
{
    if n == 0 {
        0
    } else {
        rounds_of(log_dim, (n - 1) as nat) + epoch_arity(log_dim, (n - 1) as nat)
    }
}

proof fn lemma_rounds_of(log_dim: nat, n: nat)
    requires
        6 * n <= log_dim,
    ensures
        rounds_of(log_dim, n) == 6 * n,
    decreases n,
{
    if n > 0 {
        lemma_rounds_of(log_dim, (n - 1) as nat);
    }
}

/// The epochs take all the rounds, each at least one and at most six, and only the last one
/// fewer than six.
pub proof fn lemma_epochs_take_all_rounds(log_dim: nat)
    ensures
        rounds_of(log_dim, epoch_count(log_dim)) == log_dim,
        forall|e: nat|
            e < epoch_count(log_dim) ==> 1 <= #[trigger] epoch_arity(log_dim, e) <= 6,
        forall|e: nat|
            e + 1 < epoch_count(log_dim) ==> #[trigger] epoch_arity(log_dim, e) == 6,
{
    let n = epoch_count(log_dim);
    if n > 0 {
        lemma_rounds_of(log_dim, (n - 1) as nat);
    }
}

/// The transform depends on the table alone.
pub proof fn lemma_same_table(
    x: &AdditiveNttF128,
    y: &AdditiveNttF128,
    s: Seq<F128>,
    log_d: nat,
    lanes: nat,
    from: nat,
    to: nat,
)
    requires
        x.table() == y.table(),
    ensures
        x.forward_layers(s, log_d, lanes, from, to) == y.forward_layers(s, log_d, lanes, from, to),
    decreases to,
{
    if to > from {
        let l = (to - 1) as nat;
        lemma_same_table(x, y, s, log_d, lanes, from, l);
        let prev = x.forward_layers(s, log_d, lanes, from, l);
        assert forall|b: int| x.layer_twiddles(l)(b) == #[trigger] y.layer_twiddles(l)(b) by {}
        assert(x.layer(prev, log_d, lanes, l) =~= y.layer(prev, log_d, lanes, l));
    }
}

/// The codeword of a packed witness under the standard basis.
pub open spec fn is_codeword(cw: Seq<F128>, msg: Seq<F128>, params: PcsParams) -> bool {
    forall|ntt: AdditiveNttF128|
        #[trigger] ntt.table() == evals_of(standard_basis(params.code_dim())) ==> cw == encoded(
            &ntt,
            msg,
            params.code_dim(),
            pow2(params.log_batch_size as nat),
        )
}

pub proof fn lemma_code_sizes(params: PcsParams)
    requires
        params.wf(),
    ensures
        pow2(params.msg_log()) * pow2(params.log_inv_rate as nat) == pow2(params.code_dim()) * pow2(
            params.log_batch_size as nat,
        ),
        pow2((params.code_dim() - params.log_inv_rate) as nat) * pow2(
            params.log_batch_size as nat,
        ) == pow2(params.msg_log()),
        pow2(params.msg_log()) <= pow2(params.code_dim()) * pow2(params.log_batch_size as nat),
        pow2(params.code_dim()) * pow2(params.log_batch_size as nat) <= usize::MAX,
        2 * pow2(params.code_dim()) <= usize::MAX,
        pow2(params.log_batch_size as nat) <= usize::MAX,
        params.log_batch_size < 64,
        1 <= pow2(params.code_dim()),
        1 <= pow2(params.log_batch_size as nat),
        1 <= pow2(params.msg_log()),
{
    let b = params.log_batch_size as nat;
    let r = params.log_inv_rate as nat;
    let d = params.code_dim();
    lemma_pow2_adds(params.msg_log(), r);
    lemma_pow2_adds(d, b);
    lemma_pow2_adds((d - r) as nat, b);
    lemma_pow2_pos(d);
    lemma_pow2_pos(b);
    lemma_pow2_pos(r);
    lemma_pow2_pos(params.msg_log());
    let (x, y, z) = (pow2(d) as int, pow2(b) as int, pow2(params.msg_log()) as int);
    assert(x * y <= x * (2 * y) && 2 * x <= x * (2 * y) && y <= x * (2 * y)) by (nonlinear_arith)
        requires
            x >= 1,
            y >= 1,
    ;
    let w = pow2(r) as int;
    assert(z <= z * w) by (nonlinear_arith)
        requires
            z >= 1,
            w >= 1,
    ;
    lemma_pow2_fits(b);
}

/// Encode and commit to a packed witness.
pub fn commit(packed_witness: &[F128], params: &PcsParams) -> (out: (Commitment, ProverData))
    requires
        params.wf(),
        packed_witness@.len() == pow2(params.msg_log()),
    ensures
        out.0.params == *params,
        out.1.codeword@.len() == pow2(params.code_dim()) * pow2(params.log_batch_size as nat),
        is_codeword(out.1.codeword@, packed_witness@, *params),
        is_tree(
            out.1.merkle_tree@,
            leaf_hashes(out.1.codeword@, pow2(params.code_dim())),
            params.code_dim(),
        ),
        out.0.root@ == merkle_root(
            leaf_hashes(out.1.codeword@, pow2(params.code_dim())),
            params.code_dim(),
        ),
{
    proof {
        lemma_code_sizes(*params);
        lemma_log2(params.code_dim());
        lemma_log2(params.log_batch_size as nat);
    }
    let k_code: usize = params.k_code();
    let num_ntts: usize = pow2_usize(params.log_batch_size);
    let n_positions: usize = pow2_usize(k_code);
    let total: usize = n_positions * num_ntts;
    let msg_len: usize = packed_witness.len();
    // The first layers of the transform of a zero-padded message do no more
    // than repeat it.
    let mut codeword: Vec<F128> = Vec::with_capacity(total);
    let mut at: usize = 0;
    let mut i: usize = 0;
    while i < total
        invariant
            i <= total,
            msg_len == packed_witness@.len(),
            msg_len > 0,
            at == i as int % msg_len as int,
            codeword@.len() == i,
            forall|p: int|
                0 <= p < i ==> #[trigger] codeword@[p] == packed_witness@[p % (msg_len as int)],
        decreases total - i,
    {
        proof {
            vstd::arithmetic::div_mod::lemma_mod_bound(i as int, msg_len as int);
            vstd::arithmetic::div_mod::lemma_fundamental_div_mod(i as int, msg_len as int);
            let q = i as int / msg_len as int;
            if at + 1 == msg_len {
                assert(i + 1 == (q + 1) * msg_len) by (nonlinear_arith)
                    requires
                        i == msg_len * q + at,
                        at + 1 == msg_len,
                ;
                vstd::arithmetic::div_mod::lemma_fundamental_div_mod_converse(
                    i + 1,
                    msg_len as int,
                    q + 1,
                    0,
                );
            } else {
                assert(i + 1 == q * msg_len + (at + 1)) by (nonlinear_arith)
                    requires
                        i == msg_len * q + at,
                ;
                vstd::arithmetic::div_mod::lemma_fundamental_div_mod_converse(
                    i + 1,
                    msg_len as int,
                    q,
                    at + 1,
                );
            }
        }
        codeword.push(packed_witness[at]);
        at = at + 1;
        if at == msg_len {
            at = 0;
        }
        i = i + 1;
    }
    proof {
        assert(codeword@ =~= repeated(packed_witness@, total as nat));
    }
    let ntt = AdditiveNttF128::standard(k_code);
    proof {
        vstd::arithmetic::div_mod::lemma_fundamental_div_mod_converse(
            total as int,
            num_ntts as int,
            n_positions as int,
            0,
        );
        lemma_zero_padding_layers_repeat(
            &ntt,
            packed_witness@,
            k_code as nat,
            num_ntts as nat,
            params.log_inv_rate as nat,
        );
    }
    ntt.forward_transform_interleaved_parallel_from_layer(
        &mut codeword,
        num_ntts,
        params.log_inv_rate,
    );
    let ghost padded = zero_padded(packed_witness@, total as nat);
    proof {
        assert(codeword@ == encoded(&ntt, packed_witness@, k_code as nat, num_ntts as nat));
        assert forall|other: AdditiveNttF128|
            #[trigger] other.table() == evals_of(standard_basis(params.code_dim())) implies codeword@
            == encoded(
            &other,
            packed_witness@,
            params.code_dim(),
            pow2(params.log_batch_size as nat),
        ) by {
            lemma_same_table(
                &ntt,
                &other,
                padded,
                k_code as nat,
                num_ntts as nat,
                0,
                k_code as nat,
            );
        }
        crate::ntt::laws_f128::lemma_forward_layers_len(
            &ntt,
            padded,
            k_code as nat,
            num_ntts as nat,
            0,
            k_code as nat,
        );
        vstd::arithmetic::div_mod::lemma_fundamental_div_mod_converse(
            total as int,
            n_positions as int,
            num_ntts as int,
            0,
        );
    }
    let tree = merkle_tree(&codeword, n_positions);
    let last: usize = tree.len() - 1;
    let root = tree[last];
    proof {
        crate::merkle::lemma_root_is_last(
            tree@,
            leaf_hashes(codeword@, n_positions as nat),
            params.code_dim(),
        );
    }
    (Commitment { root, params: *params }, ProverData { codeword, merkle_tree: tree })
}

} // verus!
