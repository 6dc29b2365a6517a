//! The BaseFold verifier.
use vstd::arithmetic::power2::{lemma2_to64, lemma_pow2_adds, lemma_pow2_pos, pow2};
use vstd::prelude::*;
use vstd::slice::slice_subrange;
use crate::challenger::fs::elements_bytes;
use crate::challenger::Challenger;
use crate::field::F128;
use crate::hash::{sha256, Hash32};
use crate::index::{lemma_log2, lemma_pow2_fits, lemma_pow2_of_width, pow2_usize, shifted_right};
use crate::merkle::{
    as_ints, f128_slice_to_bytes, hash_eq, hash_leaf, hash_views, insert_position,
    lemma_sorted_positions, multi_verifies, sorted_positions, verify_merkle_multi_proof,
};
use crate::ntt::AdditiveNttF128;
use crate::pcs::basefold::prover::{code_of, lemma_epoch, lemma_epoch_index, root_to_f128};
use crate::pcs::basefold::{
    basefold_label, default_fri_queries, epoch_index, epoch_indices, query_count, query_position,
    query_positions, root_element, state_after_samples, BaseFoldProof, Code, QueryOpening,
    VerifyError,
};
use crate::pcs::commit::compute_fri_arities;
use crate::pcs::fold::{
    coset_fold_all, fold_low_all, fri_fold_coset, low_target, row_batch_fold_one,
};

verus! {

// ---------------------------------------------------------------------------
// The verdict
// ---------------------------------------------------------------------------

/// The number of epoch commitments beside the post-row-batch one.
pub open spec fn commit_count(c: Code) -> nat {
    if c.epochs() == 0 {
        0
    } else {
        (c.epochs() - 1) as nat
    }
}

/// The root that a proof gives for the tree of epoch `e`.
pub open spec fn proof_root(out: BaseFoldProof, e: nat) -> Seq<u8> {
    if e == 0 {
        out.post_row_batch_commit.root@
    } else {
        out.round_commitments@[e - 1].root@
    }
}

/// The multi-proof that a proof gives for the tree of epoch `e`.
pub open spec fn proof_siblings(out: BaseFoldProof, e: nat) -> Seq<Hash32> {
    if e == 0 {
        out.post_row_batch_multi_proof@
    } else {
        out.epoch_multi_proofs@[e - 1]@
    }
}

/// The leaf that a query opens of the tree of epoch `e`.
pub open spec fn query_leaf(q: QueryOpening, e: nat) -> Seq<F128> {
    if e == 0 {
        q.post_row_batch_leaf@
    } else {
        q.epoch_leaves@[e - 1]@
    }
}

/// The verifier after some rounds.
pub struct CheckedRounds<S> {
    pub challenges: Seq<F128>,
    pub target: F128,
    pub state: S,
}

/// The first `t` rounds, replayed from the proof.
pub open spec fn replayed<Ch: Challenger>(
    s: Ch::State,
    out: BaseFoldProof,
    c: Code,
    target: F128,
    t: nat,
) -> CheckedRounds<Ch::State>
    decreases t,
{
    if t == 0 {
        CheckedRounds { challenges: Seq::empty(), target, state: s }
    } else {
        let p = replayed::<Ch>(s, out, c, target, (t - 1) as nat);
        let m = out.round_messages@[t - 1];
        let s1 = Ch::after_f128(Ch::after_f128(p.state, m.u_0), m.u_2);
        let r = Ch::challenge(s1);
        let s2 = Ch::after_sample(s1);
        CheckedRounds {
            challenges: p.challenges.push(r),
            target: low_target(p.target, m.u_0, m.u_2, r),
            state: if c.commits_at(t) {
                Ch::after_f128(
                    s2,
                    root_element(proof_root(out, ((t - c.log_batch) / 6) as nat)),
                )
            } else {
                s2
            },
        }
    }
}

/// The FRI challenges of epoch `e`.
pub open spec fn epoch_challenges(c: Code, ch: Seq<F128>, e: nat) -> Seq<F128> {
    ch.subrange(
        (c.log_batch + 6 * e) as int,
        (c.log_batch + 6 * e + c.arity(e)) as int,
    )
}

/// The value that a query must find at its position when epoch `e` starts:
/// the fold of the leaf that it opened before.
pub open spec fn expected_value(
    ntt: &AdditiveNttF128,
    q: QueryOpening,
    c: Code,
    ch: Seq<F128>,
    e: nat,
) -> F128 {
    if e == 0 {
        fold_low_all(q.initial_leaf@, ch.take(c.log_batch as int))[0]
    } else {
        let f = (e - 1) as nat;
        coset_fold_all(
            ntt,
            query_leaf(q, f),
            (c.k_code() - 6 * f) as nat,
            epoch_index(c, f, q.position as int),
            epoch_challenges(c, ch, f),
        )[0]
    }
}

/// Where the position of a query lies in its leaf of the tree of epoch `e`.
pub open spec fn leaf_offset(c: Code, e: nat, position: int) -> int {
    position / (pow2(6 * e) as int) % (pow2(c.arity(e)) as int)
}

/// What is wrong with the epochs from `e` on of a query. A leaf of a codeword that is
/// longer than the domain of the transform cannot be folded.
pub open spec fn epochs_error(
    ntt: &AdditiveNttF128,
    q: QueryOpening,
    c: Code,
    ch: Seq<F128>,
    qi: int,
    e: nat,
) -> Option<VerifyError>
    decreases c.epochs() - e,
{
    if e >= c.epochs() {
        None
    } else if query_leaf(q, e).len() != pow2(c.arity(e)) {
        Some(VerifyError::InvalidProofShape)
    } else if query_leaf(q, e)[leaf_offset(c, e, q.position as int)] != expected_value(
        ntt,
        q,
        c,
        ch,
        e,
    ) {
        Some(
            VerifyError::FoldMismatch {
                query_index: qi as usize,
                epoch: if e == 0 {
                    0
                } else {
                    (e - 1) as usize
                },
            },
        )
    } else if c.k_code() > ntt.dim() {
        Some(VerifyError::InvalidProofShape)
    } else {
        epochs_error(ntt, q, c, ch, qi, e + 1)
    }
}

/// What is wrong with a query, apart from its Merkle paths.
pub open spec fn query_error(
    ntt: &AdditiveNttF128,
    q: QueryOpening,
    final_codeword: Seq<F128>,
    c: Code,
    ch: Seq<F128>,
    qi: int,
    position: usize,
) -> Option<VerifyError> {
    if q.position != position {
        Some(VerifyError::FoldMismatch { query_index: qi as usize, epoch: 0 })
    } else if q.initial_leaf@.len() != c.lanes() {
        Some(VerifyError::InitialMerkleFailed { query_index: qi as usize })
    } else if q.epoch_leaves@.len() != commit_count(c) {
        Some(VerifyError::InvalidProofShape)
    } else if epochs_error(ntt, q, c, ch, qi, 0) is Some {
        epochs_error(ntt, q, c, ch, qi, 0)
    } else if final_codeword[position as int / (pow2(c.log_dim) as int)] != expected_value(
        ntt,
        q,
        c,
        ch,
        c.epochs(),
    ) {
        Some(
            VerifyError::FoldMismatch {
                query_index: qi as usize,
                epoch: commit_count(c) as usize,
            },
        )
    } else {
        None
    }
}

/// What is wrong with the queries from `qi` on, apart from their Merkle paths.
pub open spec fn queries_error(
    ntt: &AdditiveNttF128,
    out: BaseFoldProof,
    c: Code,
    ch: Seq<F128>,
    positions: Seq<usize>,
    qi: nat,
) -> Option<VerifyError>
    decreases out.queries@.len() - qi,
{
    if qi >= out.queries@.len() {
        None
    } else {
        let e = query_error(
            ntt,
            out.queries@[qi as int],
            out.final_codeword@,
            c,
            ch,
            qi as int,
            positions[qi as int],
        );
        if e is Some {
            e
        } else {
            queries_error(ntt, out, c, ch, positions, qi + 1)
        }
    }
}

/// No leaf is opened with two hashes.
pub open spec fn consistent(positions: Seq<usize>, hashes: Seq<Seq<u8>>) -> bool {
    forall|i: int, j: int|
        0 <= i < positions.len() && 0 <= j < positions.len() && #[trigger] positions[i]
            == #[trigger] positions[j] ==> hashes[i] == hashes[j]
}

/// A query that opens leaf `p`.
pub open spec fn opener(positions: Seq<usize>, p: int) -> int {
    choose|i: int| 0 <= i < positions.len() && #[trigger] positions[i] == p
}

/// The hashes of the leaves `sorted`.
pub open spec fn hashes_of(positions: Seq<usize>, hashes: Seq<Seq<u8>>, sorted: Seq<int>) -> Seq<
    Seq<u8>,
> {
    Seq::new(sorted.len(), |k: int| hashes[opener(positions, sorted[k])])
}

/// Whether the multi-proof shows the opened leaves, of which several may be
/// the same, to belong to the tree.
pub open spec fn paths_hold(
    root: Seq<u8>,
    levels: nat,
    positions: Seq<usize>,
    hashes: Seq<Seq<u8>>,
    sibs: Seq<Seq<u8>>,
) -> bool {
    if positions.len() == 0 {
        sibs.len() == 0
    } else {
        consistent(positions, hashes) && multi_verifies(
            root,
            levels,
            sorted_positions(positions),
            hashes_of(positions, hashes, sorted_positions(positions)),
            sibs,
        )
    }
}

/// The hashes of the initial leaves that the queries open.
pub open spec fn initial_hashes(queries: Seq<QueryOpening>) -> Seq<Seq<u8>> {
    Seq::new(queries.len(), |i: int| sha256(elements_bytes(queries[i].initial_leaf@)))
}

/// The hashes of the leaves of the tree of epoch `e` that the queries open.
pub open spec fn opened_hashes(queries: Seq<QueryOpening>, e: nat) -> Seq<Seq<u8>> {
    Seq::new(queries.len(), |i: int| sha256(elements_bytes(query_leaf(queries[i], e))))
}

/// What is wrong with the Merkle paths of the epochs from `e` on.
pub open spec fn epoch_paths_error(
    out: BaseFoldProof,
    c: Code,
    positions: Seq<usize>,
    e: nat,
) -> Option<VerifyError>
    decreases c.epochs() - e,
{
    if e >= c.epochs() {
        None
    } else if !paths_hold(
        proof_root(out, e),
        c.epoch_log(e),
        epoch_indices(c, e, positions),
        opened_hashes(out.queries@, e),
        hash_views(proof_siblings(out, e)),
    ) {
        Some(
            if e == 0 {
                VerifyError::InitialMerkleFailed { query_index: 0 }
            } else {
                VerifyError::RoundMerkleFailed { query_index: 0, epoch: (e - 1) as usize }
            },
        )
    } else {
        epoch_paths_error(out, c, positions, e + 1)
    }
}

/// What is wrong with the Merkle paths.
pub open spec fn paths_error(
    out: BaseFoldProof,
    root: Seq<u8>,
    c: Code,
    positions: Seq<usize>,
) -> Option<VerifyError> {
    if !paths_hold(
        root,
        c.k_code(),
        positions,
        initial_hashes(out.queries@),
        hash_views(out.initial_multi_proof@),
    ) {
        Some(VerifyError::InitialMerkleFailed { query_index: 0 })
    } else {
        epoch_paths_error(out, c, positions, 0)
    }
}

/// Whether all entries of a codeword are the same.
pub open spec fn constant(v: Seq<F128>) -> bool {
    forall|i: int| 0 <= i < v.len() ==> #[trigger] v[i] == v[0]
}

/// What is wrong with the end of the sumcheck and the final codeword.
pub open spec fn final_error(out: BaseFoldProof, c: Code, target: F128) -> Option<VerifyError> {
    if out.final_a * out.final_b != target {
        Some(VerifyError::SumcheckFinalMismatch)
    } else if out.final_codeword@.len() != pow2(c.log_inv_rate) || !constant(out.final_codeword@) {
        Some(VerifyError::FinalCodewordNotConstant)
    } else if out.final_codeword@[0] != out.final_a {
        Some(VerifyError::SumcheckFriMismatch)
    } else {
        None
    }
}

/// What the verifier answers, and the state that it leaves the challenger in.
pub struct Verdict<S> {
    pub result: Result<Seq<F128>, VerifyError>,
    pub state: S,
}

/// The verdict on a proof of as many rounds as `c` has. The proof is not trusted: where its
/// number of rounds stands for a codeword that no index reaches, its shape is wrong.
pub open spec fn verdict<Ch: Challenger>(
    s: Ch::State,
    target: F128,
    out: BaseFoldProof,
    root: Seq<u8>,
    ntt: &AdditiveNttF128,
    c: Code,
) -> Verdict<Ch::State> {
    let s1 = Ch::after_label(s, basefold_label());
    if out.round_commitments@.len() != commit_count(c) || out.queries@.len() != query_count(
        c.log_inv_rate,
    ) {
        Verdict { result: Err(VerifyError::InvalidProofShape), state: s1 }
    } else {
        let p = replayed::<Ch>(s1, out, c, target, c.rounds());
        match final_error(out, c, p.target) {
            Some(e) => Verdict { result: Err(e), state: p.state },
            None => if pow2(c.k_code()) > usize::MAX {
                Verdict { result: Err(VerifyError::InvalidProofShape), state: p.state }
            } else {
                let positions = query_positions::<Ch>(p.state, c.k_code(), out.queries@.len());
                let result = if out.epoch_multi_proofs@.len() != commit_count(c) {
                    Err(VerifyError::InvalidProofShape)
                } else {
                    match queries_error(ntt, out, c, p.challenges, positions, 0) {
                        Some(e) => Err(e),
                        None => match paths_error(out, root, c, positions) {
                            Some(e) => Err(e),
                            None => Ok(p.challenges),
                        },
                    }
                };
                Verdict { result, state: state_after_samples::<Ch>(p.state, out.queries@.len()) }
            },
        }
    }
}

/// The queries of the proof are looked at: it has the rounds that the lanes take, and a
/// commitment for each epoch.
pub open spec fn reaches_queries(out: BaseFoldProof, log_batch: nat) -> bool {
    let n = out.round_messages@.len();
    &&& log_batch <= n
    &&& out.round_commitments@.len() == commit_count(code_of(n as int, 0, log_batch as int))
}

/// There is a query count for the rate.
pub open spec fn rate_is_known(log_inv_rate: nat) -> bool {
    log_inv_rate == 1 || log_inv_rate == 2
}

/// The verdict on a proof, whose round messages tell the number of rounds.
pub open spec fn proof_verdict<Ch: Challenger>(
    s: Ch::State,
    target: F128,
    out: BaseFoldProof,
    root: Seq<u8>,
    ntt: &AdditiveNttF128,
    log_inv_rate: nat,
    log_batch: nat,
) -> Verdict<Ch::State> {
    let n = out.round_messages@.len();
    if log_batch > n {
        Verdict { result: Err(VerifyError::InvalidProofShape), state: s }
    } else {
        verdict::<Ch>(
            s,
            target,
            out,
            root,
            ntt,
            code_of(n as int, log_inv_rate as int, log_batch as int),
        )
    }
}

/// A result and the sequence that it stands for.
pub open spec fn same_result(
    r: Result<Vec<F128>, VerifyError>,
    expected: Result<Seq<F128>, VerifyError>,
) -> bool {
    match r {
        Ok(v) => expected == Ok::<Seq<F128>, VerifyError>(v@),
        Err(e) => expected == Err::<Seq<F128>, VerifyError>(e),
    }
}

// ---------------------------------------------------------------------------
// The checks
// ---------------------------------------------------------------------------

/// Verify a multi-proof against a possibly unsorted, possibly duplicated
/// list of opened leaves. Leaves that several queries open must agree.
pub(crate) fn verify_multi_with_dedup(
    root: &Hash32,
    num_leaves: usize,
    positions: &Vec<usize>,
    leaf_hashes: &Vec<Hash32>,
    siblings: &Vec<Hash32>,
    Ghost(levels): Ghost<nat>,
) -> (ok: bool)
    requires
        num_leaves == pow2(levels),
        positions@.len() == leaf_hashes@.len(),
    ensures
        ok == paths_hold(
            root@,
            levels,
            positions@,
            hash_views(leaf_hashes@),
            hash_views(siblings@),
        ),
{
    let n: usize = positions.len();
    if n == 0 {
        return siblings.len() == 0;
    }
    let ghost hv = hash_views(leaf_hashes@);
    let mut nodes: Vec<usize> = Vec::new();
    let mut i: usize = 0;
    proof {
        assert(positions@.take(0) =~= Seq::<usize>::empty());
        assert(as_ints(nodes@) =~= sorted_positions(positions@.take(0)));
        lemma_log2(levels);
    }
    while i < n
        invariant
            i <= n,
            n == positions@.len(),
            as_ints(nodes@) == sorted_positions(positions@.take(i as int)),
        decreases n - i,
    {
        insert_position(&mut nodes, positions[i]);
        proof {
            assert(positions@.take(i + 1).drop_last() =~= positions@.take(i as int));
        }
        i = i + 1;
    }
    proof {
        assert(positions@.take(n as int) =~= positions@);
        lemma_sorted_positions(positions@, usize::MAX + 1);
        lemma_sorted_from(positions@);
    }
    let ghost sorted = sorted_positions(positions@);
    let n_nodes: usize = nodes.len();
    let mut hashes: Vec<Hash32> = Vec::with_capacity(n_nodes);
    let mut k: usize = 0;
    while k < n_nodes
        invariant
            k <= n_nodes,
            n_nodes == nodes@.len(),
            n == positions@.len(),
            n == leaf_hashes@.len(),
            hv == hash_views(leaf_hashes@),
            sorted == sorted_positions(positions@),
            as_ints(nodes@) == sorted,
            forall|q: int| 0 <= q < sorted.len() ==> opened_by(positions@, #[trigger] sorted[q]),
            hashes@.len() == k,
            forall|q: int|
                0 <= q < k ==> (#[trigger] hashes@[q])@ == hv[opener(positions@, sorted[q])],
            forall|q: int, i: int|
                0 <= q < k && 0 <= i < n && #[trigger] positions@[i] == #[trigger] sorted[q]
                    ==> hv[i] == hv[opener(positions@, sorted[q])],
        decreases n_nodes - k,
    {
        let p: usize = nodes[k];
        let ghost first = opener(positions@, p as int);
        proof {
            assert(as_ints(nodes@)[k as int] == p);
            assert(sorted[k as int] == p);
            assert(opened_by(positions@, sorted[k as int]));
        }
        let mut found: Option<usize> = None;
        let mut j: usize = 0;
        while j < n
            invariant
                j <= n,
                n == positions@.len(),
                n == leaf_hashes@.len(),
                hv == hash_views(leaf_hashes@),
                found is None ==> forall|i: int| 0 <= i < j ==> #[trigger] positions@[i] != p,
                found is Some ==> {
                    let f = found->Some_0;
                    &&& f < j
                    &&& positions@[f as int] == p
                    &&& forall|i: int|
                        0 <= i < j && #[trigger] positions@[i] == p ==> hv[i] == hv[f as int]
                },
            decreases n - j,
        {
            if positions[j] == p {
                match found {
                    None => {
                        found = Some(j);
                    },
                    Some(f) => {
                        if !hash_eq(&leaf_hashes[f], &leaf_hashes[j]) {
                            proof {
                                assert(positions@[f as int] == positions@[j as int]);
                                assert(hv[f as int] != hv[j as int]);
                                assert(!consistent(positions@, hv));
                            }
                            return false;
                        }
                    },
                }
            }
            j = j + 1;
        }
        proof {
            assert(positions@[first] == p);
        }
        match found {
            None => {
                assert(false);
            },
            Some(f) => {
                hashes.push(leaf_hashes[f]);
            },
        }
        proof {
            assert forall|q: int, i: int|
                0 <= q < k + 1 && 0 <= i < n && #[trigger] positions@[i]
                    == #[trigger] sorted[q] implies hv[i] == hv[opener(positions@, sorted[q])] by {
                if q == k {
                    assert(hv[first] == hv[found->Some_0 as int]);
                }
            }
        }
        k = k + 1;
    }
    proof {
        assert(hash_views(hashes@) =~= hashes_of(positions@, hv, sorted));
        assert forall|i: int, j: int|
            0 <= i < positions@.len() && 0 <= j < positions@.len() && #[trigger] positions@[i]
                == #[trigger] positions@[j] implies hv[i] == hv[j] by {
            assert(sorted.contains(positions@[i] as int));
            let q = choose|q: int| 0 <= q < sorted.len() && sorted[q] == positions@[i] as int;
            assert(positions@[i] == sorted[q]);
            assert(positions@[j] == sorted[q]);
        }
        assert(consistent(positions@, hv));
    }
    verify_merkle_multi_proof(root, num_leaves, &nodes, &hashes, siblings)
}

/// Some query opens leaf `p`.
pub open spec fn opened_by(positions: Seq<usize>, p: int) -> bool {
    exists|i: int| 0 <= i < positions.len() && #[trigger] positions[i] == p
}

/// The sorted list holds nothing but the positions.
pub proof fn lemma_sorted_from(p: Seq<usize>)
    ensures
        forall|q: int|
            0 <= q < sorted_positions(p).len() ==> opened_by(p, #[trigger] sorted_positions(p)[q]),
    decreases p.len(),
{
    if p.len() > 0 {
        let rest = p.drop_last();
        lemma_sorted_from(rest);
        lemma_inserted_from(sorted_positions(rest), p.last() as int);
        assert forall|q: int| 0 <= q < sorted_positions(p).len() implies opened_by(
            p,
            #[trigger] sorted_positions(p)[q],
        ) by {
            let x = sorted_positions(p)[q];
            if x == p.last() as int {
                assert(p[p.len() - 1] == x);
            } else {
                assert(sorted_positions(rest).contains(x));
                let k = choose|k: int|
                    0 <= k < sorted_positions(rest).len() && sorted_positions(rest)[k] == x;
                assert(opened_by(rest, sorted_positions(rest)[k]));
                let i = choose|i: int| 0 <= i < rest.len() && #[trigger] rest[i] == x;
                assert(p[i] == x);
            }
        }
    }
}

/// Inserting brings in nothing else.
proof fn lemma_inserted_from(s: Seq<int>, p: int)
    ensures
        forall|q: int|
            0 <= q < crate::merkle::inserted(s, p).len() ==> (#[trigger] crate::merkle::inserted(
                s,
                p,
            )[q] == p || s.contains(crate::merkle::inserted(s, p)[q])),
    decreases s.len(),
{
    let out = crate::merkle::inserted(s, p);
    if s.len() > 0 && p > s[0] {
        lemma_inserted_from(s.skip(1), p);
        let tail = crate::merkle::inserted(s.skip(1), p);
        assert forall|q: int| 0 <= q < out.len() implies (#[trigger] out[q] == p || s.contains(
            out[q],
        )) by {
            if q > 0 {
                assert(out[q] == tail[q - 1]);
                if tail[q - 1] != p {
                    let k = choose|k: int| 0 <= k < s.skip(1).len() && s.skip(1)[k] == tail[q - 1];
                    assert(s[k + 1] == out[q]);
                }
            } else {
                assert(s[0] == out[0]);
            }
        }
    } else if s.len() > 0 && p < s[0] {
        assert forall|q: int| 0 <= q < out.len() implies (#[trigger] out[q] == p || s.contains(
            out[q],
        )) by {
            if q > 0 {
                assert(out[q] == s[q - 1]);
            }
        }
    }
}

/// Where a position lies in its leaf, and in the layer of an epoch.
pub proof fn lemma_position_parts(c: Code, e: nat, position: int)
    requires
        e < c.epochs(),
        0 <= position < pow2(c.k_code()),
    ensures
        position / (pow2(6 * e) as int) / (pow2(c.arity(e)) as int) == epoch_index(c, e, position),
        0 <= leaf_offset(c, e, position) < pow2(c.arity(e)),
{
    lemma_pow2_adds(6 * e, c.arity(e));
    lemma_pow2_pos(6 * e);
    lemma_pow2_pos(c.arity(e));
    vstd::arithmetic::div_mod::lemma_div_denominator(
        position,
        pow2(6 * e) as int,
        pow2(c.arity(e)) as int,
    );
    vstd::arithmetic::div_mod::lemma_mod_bound(
        position / (pow2(6 * e) as int),
        pow2(c.arity(e)) as int,
    );
}

/// Check the leaf of one epoch, and fold it.
fn check_epoch(
    leaf: &Vec<F128>,
    expected: F128,
    position: usize,
    e: usize,
    arity: usize,
    challenges: &Vec<F128>,
    ntt: &AdditiveNttF128,
    k_code: usize,
    log_batch_size: usize,
    qi: usize,
    Ghost(c): Ghost<Code>,
) -> (out: Result<F128, VerifyError>)
    requires
        ntt.wf(),
        k_code == c.k_code(),
        pow2(c.k_code()) <= usize::MAX,
        log_batch_size == c.log_batch,
        e < c.epochs(),
        arity == c.arity(e as nat),
        position < pow2(c.k_code()),
        challenges@.len() == c.rounds(),
    ensures
        ({
            let off = leaf_offset(c, e as nat, position as int);
            out == (if leaf@.len() != pow2(c.arity(e as nat)) {
                Err::<F128, VerifyError>(VerifyError::InvalidProofShape)
            } else if leaf@[off] != expected {
                Err(
                    VerifyError::FoldMismatch {
                        query_index: qi,
                        epoch: if e == 0 {
                            0
                        } else {
                            (e - 1) as usize
                        },
                    },
                )
            } else if c.k_code() > ntt.dim() {
                Err(VerifyError::InvalidProofShape)
            } else {
                Ok(
                    coset_fold_all(
                        ntt,
                        leaf@,
                        (c.k_code() - 6 * e) as nat,
                        epoch_index(c, e as nat, position as int),
                        epoch_challenges(c, challenges@, e as nat),
                    )[0],
                )
            })
        }),
{
    proof {
        lemma_epoch(c, e as nat);
        crate::zerocheck::multilinear::lemma_small_powers(c.arity(e as nat));
        lemma2_to64();
        lemma_pow2_fits(c.k_code());
        lemma_position_parts(c, e as nat, position as int);
        lemma_epoch_index(c, e as nat, position as int);
        lemma_pow2_adds((c.k_code() - 6 * e) as nat, (6 * e) as nat);
        lemma_pow2_pos((6 * e) as nat);
        let (x, y) = (pow2((c.k_code() - 6 * e) as nat) as int, pow2((6 * e) as nat) as int);
        assert(x <= x * y) by (nonlinear_arith)
            requires
                x >= 0,
                y >= 1,
        ;
    }
    let width: usize = pow2_usize(arity);
    if leaf.len() != width {
        return Err(VerifyError::InvalidProofShape);
    }
    let p_at_this_layer: usize = shifted_right(position, 6 * e);
    let leaf_idx: usize = shifted_right(p_at_this_layer, arity);
    let offset: usize = p_at_this_layer % width;
    if leaf[offset] != expected {
        let epoch: usize = if e == 0 {
            0
        } else {
            e - 1
        };
        return Err(VerifyError::FoldMismatch { query_index: qi, epoch });
    }
    if k_code > ntt.log_domain_size() {
        return Err(VerifyError::InvalidProofShape);
    }
    let rounds: usize = challenges.len();
    assert(log_batch_size + 6 * e + arity <= rounds);
    let from: usize = log_batch_size + 6 * e;
    let part = slice_subrange(challenges, from, from + arity);
    Ok(fri_fold_coset(leaf, part, ntt, k_code - 6 * e, leaf_idx))
}

/// Check one query, apart from its Merkle paths.
fn check_query(
    q: &QueryOpening,
    final_codeword: &Vec<F128>,
    position: usize,
    challenges: &Vec<F128>,
    ntt: &AdditiveNttF128,
    arities: &Vec<usize>,
    log_dim: usize,
    k_code: usize,
    log_batch_size: usize,
    qi: usize,
    Ghost(c): Ghost<Code>,
) -> (out: Option<VerifyError>)
    requires
        ntt.wf(),
        log_dim == c.log_dim,
        k_code == c.k_code(),
        pow2(c.k_code()) <= usize::MAX,
        log_batch_size == c.log_batch,
        arities@.len() == c.epochs(),
        forall|e: int| 0 <= e < arities@.len() ==> #[trigger] arities@[e] == c.arity(e as nat),
        position < pow2(c.k_code()),
        challenges@.len() == c.rounds(),
        final_codeword@.len() == pow2(c.log_inv_rate),
    ensures
        out == query_error(ntt, *q, final_codeword@, c, challenges@, qi as int, position),
{
    let num_epochs: usize = arities.len();
    let num_fri_commits: usize = if num_epochs == 0 {
        0
    } else {
        num_epochs - 1
    };
    if q.position != position {
        return Some(VerifyError::FoldMismatch { query_index: qi, epoch: 0 });
    }
    proof {
        lemma_pow2_of_width(c.log_batch);
    }
    let lanes: usize = q.initial_leaf.len();
    if log_batch_size >= usize::BITS as usize || lanes != pow2_usize(log_batch_size) {
        return Some(VerifyError::InitialMerkleFailed { query_index: qi });
    }
    if q.epoch_leaves.len() != num_fri_commits {
        return Some(VerifyError::InvalidProofShape);
    }
    let ghost ch = challenges@;
    let row_batch = slice_subrange(challenges, 0, log_batch_size);
    assert(row_batch@ =~= ch.take(c.log_batch as int));
    let mut expected = row_batch_fold_one(&q.initial_leaf, row_batch);
    let mut e: usize = 0;
    while e < num_epochs
        invariant
            e <= num_epochs,
            num_epochs == c.epochs(),
            ntt.wf(),
            k_code == c.k_code(),
            pow2(c.k_code()) <= usize::MAX,
            log_batch_size == c.log_batch,
            arities@.len() == c.epochs(),
            forall|e: int| 0 <= e < arities@.len() ==> #[trigger] arities@[e] == c.arity(e as nat),
            position < pow2(c.k_code()),
            ch == challenges@,
            ch.len() == c.rounds(),
            q.position == position,
            q.initial_leaf@.len() == c.lanes(),
            q.epoch_leaves@.len() == commit_count(c),
            expected == expected_value(ntt, *q, c, ch, e as nat),
            epochs_error(ntt, *q, c, ch, qi as int, 0) == epochs_error(
                ntt,
                *q,
                c,
                ch,
                qi as int,
                e as nat,
            ),
        decreases num_epochs - e,
    {
        let leaf = if e == 0 {
            &q.post_row_batch_leaf
        } else {
            &q.epoch_leaves[e - 1]
        };
        match check_epoch(
            leaf,
            expected,
            position,
            e,
            arities[e],
            challenges,
            ntt,
            k_code,
            log_batch_size,
            qi,
            Ghost(c),
        ) {
            Err(err) => {
                return Some(err);
            },
            Ok(v) => {
                expected = v;
            },
        }
        e = e + 1;
    }
    proof {
        lemma_pow2_adds(c.log_inv_rate, c.log_dim);
        lemma_pow2_pos(c.log_dim);
        lemma_pow2_fits(c.k_code());
        let (x, y) = (pow2(c.log_inv_rate) as int, pow2(c.log_dim) as int);
        let p = position as int;
        vstd::arithmetic::div_mod::lemma_fundamental_div_mod(p, y);
        vstd::arithmetic::div_mod::lemma_mod_bound(p, y);
        assert(p / y < x) by (nonlinear_arith)
            requires
                p == y * (p / y) + p % y,
                0 <= p % y,
                p < x * y,
                y >= 1,
        ;
    }
    let p_final: usize = shifted_right(position, log_dim);
    if final_codeword[p_final] != expected {
        return Some(VerifyError::FoldMismatch { query_index: qi, epoch: num_fri_commits });
    }
    None
}

/// Check the Merkle paths of one epoch.
fn check_epoch_paths(
    out: &BaseFoldProof,
    positions: &Vec<usize>,
    e: usize,
    arity: usize,
    k_code: usize,
    Ghost(c): Ghost<Code>,
) -> (ok: bool)
    requires
        k_code == c.k_code(),
        pow2(c.k_code()) <= usize::MAX,
        e < c.epochs(),
        arity == c.arity(e as nat),
        positions@.len() == out.queries@.len(),
        out.round_commitments@.len() == commit_count(c),
        out.epoch_multi_proofs@.len() == commit_count(c),
        forall|i: int| 0 <= i < positions@.len() ==> #[trigger] positions@[i] < pow2(c.k_code()),
        forall|i: int|
            0 <= i < out.queries@.len() ==> (#[trigger] out.queries@[i]).epoch_leaves@.len()
                == commit_count(c),
    ensures
        ok == paths_hold(
            proof_root(*out, e as nat),
            c.epoch_log(e as nat),
            epoch_indices(c, e as nat, positions@),
            opened_hashes(out.queries@, e as nat),
            hash_views(proof_siblings(*out, e as nat)),
        ),
{
    proof {
        lemma_epoch(c, e as nat);
        lemma_pow2_fits(c.k_code());
    }
    let n: usize = positions.len();
    let mut indices: Vec<usize> = Vec::with_capacity(n);
    let mut hashes: Vec<Hash32> = Vec::with_capacity(n);
    let mut i: usize = 0;
    while i < n
        invariant
            i <= n,
            n == positions@.len(),
            n == out.queries@.len(),
            k_code == c.k_code(),
            k_code < usize::BITS,
            e < c.epochs(),
            6 * e + arity <= k_code,
            arity == c.arity(e as nat),
            forall|i: int|
                0 <= i < out.queries@.len() ==> (#[trigger] out.queries@[i]).epoch_leaves@.len()
                    == commit_count(c),
            indices@.len() == i,
            hashes@.len() == i,
            forall|q: int|
                0 <= q < i ==> #[trigger] indices@[q] == epoch_index(
                    c,
                    e as nat,
                    positions@[q] as int,
                ),
            forall|q: int|
                0 <= q < i ==> (#[trigger] hashes@[q])@ == opened_hashes(out.queries@, e as nat)[q],
        decreases n - i,
    {
        let q = &out.queries[i];
        assert(out.queries@[i as int].epoch_leaves@.len() == commit_count(c));
        let leaf = if e == 0 {
            &q.post_row_batch_leaf
        } else {
            &q.epoch_leaves[e - 1]
        };
        indices.push(shifted_right(positions[i], 6 * e + arity));
        let bytes = f128_slice_to_bytes(leaf);
        hashes.push(hash_leaf(&bytes));
        i = i + 1;
    }
    let n_leaves: usize = pow2_usize(k_code - 6 * e - arity);
    proof {
        assert(indices@ =~= epoch_indices(c, e as nat, positions@));
        assert(hash_views(hashes@) =~= opened_hashes(out.queries@, e as nat));
    }
    let (root, siblings) = if e == 0 {
        (&out.post_row_batch_commit.root, &out.post_row_batch_multi_proof)
    } else {
        (&out.round_commitments[e - 1].root, &out.epoch_multi_proofs[e - 1])
    };
    verify_multi_with_dedup(
        root,
        n_leaves,
        &indices,
        &hashes,
        siblings,
        Ghost(c.epoch_log(e as nat)),
    )
}

/// Check the Merkle paths of all queries, one tree after another.
fn check_paths(
    out: &BaseFoldProof,
    root: &Hash32,
    positions: &Vec<usize>,
    arities: &Vec<usize>,
    k_code: usize,
    Ghost(c): Ghost<Code>,
) -> (r: Option<VerifyError>)
    requires
        k_code == c.k_code(),
        pow2(c.k_code()) <= usize::MAX,
        arities@.len() == c.epochs(),
        forall|e: int| 0 <= e < arities@.len() ==> #[trigger] arities@[e] == c.arity(e as nat),
        positions@.len() == out.queries@.len(),
        out.round_commitments@.len() == commit_count(c),
        out.epoch_multi_proofs@.len() == commit_count(c),
        forall|i: int| 0 <= i < positions@.len() ==> #[trigger] positions@[i] < pow2(c.k_code()),
        forall|i: int|
            0 <= i < out.queries@.len() ==> (#[trigger] out.queries@[i]).epoch_leaves@.len()
                == commit_count(c),
    ensures
        r == paths_error(*out, root@, c, positions@),
{
    let n: usize = positions.len();
    let mut hashes: Vec<Hash32> = Vec::with_capacity(n);
    let mut i: usize = 0;
    while i < n
        invariant
            i <= n,
            n == out.queries@.len(),
            hashes@.len() == i,
            forall|q: int|
                0 <= q < i ==> (#[trigger] hashes@[q])@ == initial_hashes(out.queries@)[q],
        decreases n - i,
    {
        let bytes = f128_slice_to_bytes(&out.queries[i].initial_leaf);
        hashes.push(hash_leaf(&bytes));
        i = i + 1;
    }
    assert(hash_views(hashes@) =~= initial_hashes(out.queries@));
    if !verify_multi_with_dedup(
        root,
        pow2_usize(k_code),
        positions,
        &hashes,
        &out.initial_multi_proof,
        Ghost(c.k_code()),
    ) {
        return Some(VerifyError::InitialMerkleFailed { query_index: 0 });
    }
    let num_epochs: usize = arities.len();
    let mut e: usize = 0;
    while e < num_epochs
        invariant
            e <= num_epochs,
            num_epochs == c.epochs(),
            k_code == c.k_code(),
            pow2(c.k_code()) <= usize::MAX,
            arities@.len() == c.epochs(),
            forall|e: int| 0 <= e < arities@.len() ==> #[trigger] arities@[e] == c.arity(e as nat),
            positions@.len() == out.queries@.len(),
            out.round_commitments@.len() == commit_count(c),
            out.epoch_multi_proofs@.len() == commit_count(c),
            forall|i: int|
                0 <= i < positions@.len() ==> #[trigger] positions@[i] < pow2(c.k_code()),
            forall|i: int|
                0 <= i < out.queries@.len() ==> (#[trigger] out.queries@[i]).epoch_leaves@.len()
                    == commit_count(c),
            paths_error(*out, root@, c, positions@) == epoch_paths_error(
                *out,
                c,
                positions@,
                e as nat,
            ),
        decreases num_epochs - e,
    {
        if !check_epoch_paths(out, positions, e, arities[e], k_code, Ghost(c)) {
            if e == 0 {
                return Some(VerifyError::InitialMerkleFailed { query_index: 0 });
            } else {
                return Some(VerifyError::RoundMerkleFailed { query_index: 0, epoch: e - 1 });
            }
        }
        e = e + 1;
    }
    None
}

/// Check the end of the sumcheck and the final codeword.
fn check_final(
    out: &BaseFoldProof,
    running_target: F128,
    log_inv_rate: usize,
    Ghost(c): Ghost<Code>,
) -> (r: Option<VerifyError>)
    requires
        log_inv_rate == c.log_inv_rate,
        log_inv_rate == 1 || log_inv_rate == 2,
    ensures
        r == final_error(*out, c, running_target),
{
    proof {
        lemma2_to64();
    }
    if out.final_a * out.final_b != running_target {
        return Some(VerifyError::SumcheckFinalMismatch);
    }
    let n: usize = out.final_codeword.len();
    if n != pow2_usize(log_inv_rate) {
        return Some(VerifyError::FinalCodewordNotConstant);
    }
    let first = out.final_codeword[0];
    let mut i: usize = 1;
    while i < n
        invariant
            1 <= i <= n,
            n == out.final_codeword@.len(),
            n == pow2(c.log_inv_rate),
            first == out.final_codeword@[0],
            out.final_a * out.final_b == running_target,
            forall|q: int| 0 <= q < i ==> #[trigger] out.final_codeword@[q] == first,
        decreases n - i,
    {
        if out.final_codeword[i] != first {
            assert(!constant(out.final_codeword@));
            return Some(VerifyError::FinalCodewordNotConstant);
        }
        i = i + 1;
    }
    assert(constant(out.final_codeword@));
    if first != out.final_a {
        return Some(VerifyError::SumcheckFriMismatch);
    }
    None
}

/// Verify that `proof_in` opens the committed codeword: replay the sumcheck,
/// resample the query positions and check every query and every Merkle path.
/// Returns the challenges of the rounds; the caller checks `final_b` against
/// the value of the public table at them.
#[verifier::rlimit(40)]
pub fn verify<Ch: Challenger>(
    target: F128,
    proof_in: &BaseFoldProof,
    initial_codeword_root: &Hash32,
    ntt: &AdditiveNttF128,
    log_inv_rate: usize,
    log_batch_size: usize,
    challenger: &mut Ch,
) -> (r: Result<Vec<F128>, VerifyError>)
    requires
        ntt.wf(),
        reaches_queries(*proof_in, log_batch_size as nat) ==> rate_is_known(log_inv_rate as nat),
    ensures
        ({
            let v = proof_verdict::<Ch>(
                old(challenger).state(),
                target,
                *proof_in,
                initial_codeword_root@,
                ntt,
                log_inv_rate as nat,
                log_batch_size as nat,
            );
            same_result(r, v.result) && final(challenger).state() == v.state
        }),
{
    let log_msg_len: usize = proof_in.round_messages.len();
    if log_batch_size > log_msg_len {
        return Err(VerifyError::InvalidProofShape);
    }
    let ghost c = code_of(log_msg_len as int, log_inv_rate as int, log_batch_size as int);
    let ghost start = Ch::after_label(challenger.state(), basefold_label());
    proof {
        lemma2_to64();
        lemma_pow2_of_width(c.k_code());
    }
    let log_dim: usize = log_msg_len - log_batch_size;
    let arities = compute_fri_arities(log_dim);
    let num_epochs: usize = arities.len();
    let num_fri_commits: usize = if num_epochs == 0 {
        0
    } else {
        num_epochs - 1
    };
    let label: [u8; 17] = [
        0x66, 0x6c, 0x6f, 0x63, 0x6b, 0x2d, 0x62, 0x61, 0x73, 0x65, 0x66, 0x6f, 0x6c, 0x64, 0x2d,
        0x76, 0x30,
    ];
    assert(label@ =~= basefold_label());
    challenger.observe_label(&label);
    if proof_in.round_commitments.len() != num_fri_commits {
        return Err(VerifyError::InvalidProofShape);
    }
    // The number of queries is a soundness parameter, not a prover choice: a
    // proof with fewer would not bind the codeword to the commitment.
    let n_queries: usize = proof_in.queries.len();
    if n_queries != default_fri_queries(log_inv_rate) {
        return Err(VerifyError::InvalidProofShape);
    }
    let mut running_target = target;
    let mut challenges: Vec<F128> = Vec::with_capacity(log_msg_len);
    let mut current_epoch: usize = 0;
    let mut rounds_in_epoch: usize = 0;
    // Replay the sumcheck rounds in lockstep with the prover; observe the
    // post-row-batch root right after the last row-batch round, the other
    // roots at the epoch boundaries.
    let mut round: usize = 0;
    while round < log_msg_len
        invariant
            round <= log_msg_len,
            log_msg_len == proof_in.round_messages@.len(),
            log_msg_len == c.rounds(),
            log_batch_size == c.log_batch,
            log_dim == c.log_dim,
            log_dim == log_msg_len - log_batch_size,
            num_epochs == c.epochs(),
            arities@.len() == num_epochs,
            forall|e: int| 0 <= e < arities@.len() ==> #[trigger] arities@[e] == c.arity(e as nat),
            proof_in.round_commitments@.len() == commit_count(c),
            challenges@.len() == round,
            ({
                let p = replayed::<Ch>(start, *proof_in, c, target, round as nat);
                &&& challenges@ == p.challenges
                &&& running_target == p.target
                &&& challenger.state() == p.state
            }),
            round < log_batch_size ==> current_epoch == 0 && rounds_in_epoch == 0,
            round >= log_batch_size ==> {
                let f = round - log_batch_size;
                f < log_dim ==> current_epoch == f / 6 && rounds_in_epoch == f % 6
            },
        decreases log_msg_len - round,
    {
        let msg = proof_in.round_messages[round];
        challenger.observe_f128(msg.u_0);
        challenger.observe_f128(msg.u_2);
        let r = challenger.sample_f128();
        challenges.push(r);
        let u_1 = running_target + msg.u_2;
        running_target = msg.u_0 + r * u_1 + r * r * msg.u_2;
        if round + 1 == log_batch_size && num_epochs > 0 {
            challenger.observe_f128(root_to_f128(&proof_in.post_row_batch_commit.root));
        }
        if round >= log_batch_size {
            proof {
                lemma_epoch(c, ((round - log_batch_size) / 6) as nat);
            }
            rounds_in_epoch = rounds_in_epoch + 1;
            if rounds_in_epoch == arities[current_epoch] {
                if current_epoch + 1 != num_epochs {
                    let root = &proof_in.round_commitments[current_epoch].root;
                    challenger.observe_f128(root_to_f128(root));
                }
                rounds_in_epoch = 0;
                current_epoch = current_epoch + 1;
            }
        }
        round = round + 1;
    }
    let ghost p = replayed::<Ch>(start, *proof_in, c, target, c.rounds());
    match check_final(proof_in, running_target, log_inv_rate, Ghost(c)) {
        Some(e) => {
            return Err(e);
        },
        None => {},
    }
    // Resample the query positions.
    if log_dim >= usize::BITS as usize - log_inv_rate {
        return Err(VerifyError::InvalidProofShape);
    }
    let k_code: usize = log_dim + log_inv_rate;
    let n_positions: usize = pow2_usize(k_code);
    let mut positions: Vec<usize> = Vec::with_capacity(n_queries);
    let mut i: usize = 0;
    while i < n_queries
        invariant
            i <= n_queries,
            n_positions == pow2(c.k_code()),
            n_positions >= 1,
            challenger.state() == state_after_samples::<Ch>(p.state, i as nat),
            positions@.len() == i,
            forall|q: int|
                0 <= q < i ==> #[trigger] positions@[q] == query_position::<Ch>(
                    p.state,
                    c.k_code(),
                    q as nat,
                ),
            forall|q: int| 0 <= q < i ==> #[trigger] positions@[q] < pow2(c.k_code()),
        decreases n_queries - i,
    {
        let raw = challenger.sample_f128();
        proof {
            vstd::arithmetic::div_mod::lemma_mod_bound(raw.lo as int, n_positions as int);
        }
        positions.push((raw.lo % (n_positions as u64)) as usize);
        i = i + 1;
    }
    proof {
        assert(positions@ =~= query_positions::<Ch>(p.state, c.k_code(), n_queries as nat));
    }
    if proof_in.epoch_multi_proofs.len() != num_fri_commits {
        return Err(VerifyError::InvalidProofShape);
    }
    let ghost all = queries_error(ntt, *proof_in, c, p.challenges, positions@, 0);
    let ghost v = proof_verdict::<Ch>(
        old(challenger).state(),
        target,
        *proof_in,
        initial_codeword_root@,
        ntt,
        log_inv_rate as nat,
        log_batch_size as nat,
    );
    proof {
        assert(all is Some ==> v.result == Err::<Seq<F128>, VerifyError>(all->Some_0));
        assert(challenger.state() == v.state);
    }
    let mut qi: usize = 0;
    while qi < n_queries
        invariant
            qi <= n_queries,
            n_queries == proof_in.queries@.len(),
            n_queries == positions@.len(),
            ntt.wf(),
            log_dim == c.log_dim,
            k_code == c.k_code(),
            pow2(c.k_code()) <= usize::MAX,
            log_batch_size == c.log_batch,
            arities@.len() == c.epochs(),
            forall|e: int| 0 <= e < arities@.len() ==> #[trigger] arities@[e] == c.arity(e as nat),
            forall|q: int| 0 <= q < positions@.len() ==> #[trigger] positions@[q] < pow2(c.k_code()),
            challenges@ == p.challenges,
            challenges@.len() == c.rounds(),
            proof_in.final_codeword@.len() == pow2(c.log_inv_rate),
            all == queries_error(ntt, *proof_in, c, p.challenges, positions@, qi as nat),
            all is Some ==> v.result == Err::<Seq<F128>, VerifyError>(all->Some_0),
            challenger.state() == v.state,
            v == proof_verdict::<Ch>(
                old(challenger).state(),
                target,
                *proof_in,
                initial_codeword_root@,
                ntt,
                log_inv_rate as nat,
                log_batch_size as nat,
            ),
            forall|i: int|
                0 <= i < qi ==> (#[trigger] proof_in.queries@[i]).epoch_leaves@.len()
                    == commit_count(c),
        decreases n_queries - qi,
    {
        assert(positions@[qi as int] < pow2(c.k_code()));
        match check_query(
            &proof_in.queries[qi],
            &proof_in.final_codeword,
            positions[qi],
            &challenges,
            ntt,
            &arities,
            log_dim,
            k_code,
            log_batch_size,
            qi,
            Ghost(c),
        ) {
            Some(e) => {
                return Err(e);
            },
            None => {},
        }
        qi = qi + 1;
    }
    match check_paths(proof_in, initial_codeword_root, &positions, &arities, k_code, Ghost(c)) {
        Some(e) => Err(e),
        None => Ok(challenges),
    }
}

} // verus!
