//! The polynomial commitment scheme.
use flock_core::challenger::{Challenger, FsChallenger};
use flock_core::field::F128;
use flock_core::ntt::AdditiveNttF128;
use flock_core::pcs::basefold::VerifyError as BaseFoldError;
use flock_core::pcs::commit::compute_fri_arities;
use flock_core::pcs::residual::backend_verdict;
use flock_core::pcs::verify::reduce_claims;
use flock_core::pcs::{
    basefold, commit, compute_combined_basis_and_target, open, open_batch, open_batch_mixed,
    open_batch_mixed_with_precomputed_s_hat_v, open_batch_padded,
    open_batch_padded_with_precomputed_s_hat_v, pack_witness, ring_switch, verify_opening,
    verify_opening_batch, verify_opening_batch_ligerito_mixed, verify_opening_batch_mixed,
    BatchOpeningProof, BatchOpeningProofLigerito, DirectEqInd, OpeningProof, PackedDirectClaim,
    PackedDirectClaimRef, PcsParams, VerifyError, LOG_PACKING,
};
use flock_core::zerocheck::multilinear::{build_eq_table, eq_eval, lagrange_weights_naive};
use flock_core::zerocheck::PaddingSpec;

struct Rng(u64);
impl Rng {
    fn new(seed: u64) -> Self {
        Self(seed)
    }
    fn next_u64(&mut self) -> u64 {
        self.0 = self.0.wrapping_add(0x9E3779B97F4A7C15);
        let mut z = self.0;
        z = (z ^ (z >> 30)).wrapping_mul(0xBF58476D1CE4E5B9);
        z = (z ^ (z >> 27)).wrapping_mul(0x94D049BB133111EB);
        z ^ (z >> 31)
    }
    fn bits(&mut self, n: usize) -> Vec<bool> {
        (0..n).map(|_| self.next_u64() & 1 == 1).collect()
    }
    fn f128(&mut self) -> F128 {
        F128 {
            lo: self.next_u64(),
            hi: self.next_u64(),
        }
    }
}

fn default_params(m: usize) -> PcsParams {
    PcsParams {
        m,
        log_inv_rate: 1,
        log_batch_size: 1,
    }
}

fn zhat_skip_reference(z: &[bool], m: usize, z_skip: F128, x_outer: &[F128]) -> F128 {
    let k_skip: usize = 6;
    let ell = 1usize << k_skip;
    let lambda = lagrange_weights_naive(k_skip, z_skip);
    let eq_outer = build_eq_table(x_outer);
    let mut acc = F128::zero();
    for i_outer in 0..(1usize << (m - k_skip)) {
        let base = i_outer * ell;
        let mut inner = F128::zero();
        for i_skip in 0..ell {
            if z[base + i_skip] {
                inner += lambda[i_skip];
            }
        }
        acc += eq_outer[i_outer] * inner;
    }
    acc
}

/// End-to-end PCS roundtrip: commit, open at a random QuirkyPoint, verify.
#[test]
fn pcs_open_verify_roundtrip() {
    let mut rng = Rng::new(0xC0FFEE_42);
    for &m in &[8usize, 9, 10, 11] {
        let z = rng.bits(1 << m);
        let z_skip = rng.f128();
        let x_outer: Vec<F128> = (0..(m - 6)).map(|_| rng.f128()).collect();
        let claim = zhat_skip_reference(&z, m, z_skip, &x_outer);

        let params = default_params(m);
        let z_packed = pack_witness(&z, m);
        let (commitment, prover_data) = commit(&z_packed, &params);

        let mut ch_p = FsChallenger::new(b"flock-test-v0");
        let proof = open(&z_packed, &prover_data, &commitment, &x_outer, &mut ch_p);

        let mut ch_v = FsChallenger::new(b"flock-test-v0");
        verify_opening(&commitment, claim, z_skip, &x_outer, &proof, &mut ch_v)
            .unwrap_or_else(|e| panic!("verify rejected honest proof at m={m}: {e:?}"));
    }
}

#[test]
fn pcs_verify_rejects_wrong_claim() {
    let m = 10;
    let mut rng = Rng::new(0x99);
    let z = rng.bits(1 << m);
    let z_skip = rng.f128();
    let x_outer: Vec<F128> = (0..(m - 6)).map(|_| rng.f128()).collect();
    let mut claim = zhat_skip_reference(&z, m, z_skip, &x_outer);
    claim.lo ^= 1;

    let params = default_params(m);
    let z_packed = pack_witness(&z, m);
    let (commitment, prover_data) = commit(&z_packed, &params);

    let mut ch_p = FsChallenger::new(b"flock-test-v0");
    let proof = open(&z_packed, &prover_data, &commitment, &x_outer, &mut ch_p);

    let mut ch_v = FsChallenger::new(b"flock-test-v0");
    let res = verify_opening(&commitment, claim, z_skip, &x_outer, &proof, &mut ch_v);
    assert!(matches!(res, Err(VerifyError::RingSwitch(_))));
}

#[test]
fn pcs_verify_rejects_mutated_basefold() {
    let m = 10;
    let mut rng = Rng::new(0xABCD);
    let z = rng.bits(1 << m);
    let z_skip = rng.f128();
    let x_outer: Vec<F128> = (0..(m - 6)).map(|_| rng.f128()).collect();
    let claim = zhat_skip_reference(&z, m, z_skip, &x_outer);

    let params = default_params(m);
    let z_packed = pack_witness(&z, m);
    let (commitment, prover_data) = commit(&z_packed, &params);

    let mut ch_p = FsChallenger::new(b"flock-test-v0");
    let mut proof = open(&z_packed, &prover_data, &commitment, &x_outer, &mut ch_p);
    // Mutate final_a: now caught by either sumcheck or FRI consistency.
    proof.basefold.final_a.lo ^= 1;

    let mut ch_v = FsChallenger::new(b"flock-test-v0");
    let res = verify_opening(&commitment, claim, z_skip, &x_outer, &proof, &mut ch_v);
    assert!(matches!(res, Err(VerifyError::BaseFold(_))));
}

/// A proof with fewer FRI queries than the rate asks for (down to none) is
/// rejected.
#[test]
fn pcs_verify_rejects_truncated_fri_queries() {
    let m = 10;
    let mut rng = Rng::new(0x5EC0_1234);
    let z = rng.bits(1 << m);
    let z_skip = rng.f128();
    let x_outer: Vec<F128> = (0..(m - 6)).map(|_| rng.f128()).collect();
    let claim = zhat_skip_reference(&z, m, z_skip, &x_outer);

    let params = default_params(m);
    let z_packed = pack_witness(&z, m);
    let (commitment, prover_data) = commit(&z_packed, &params);

    let mut ch_p = FsChallenger::new(b"flock-test-v0");
    let honest = open(&z_packed, &prover_data, &commitment, &x_outer, &mut ch_p);

    // The honest proof must verify (sanity: the enforcement is not over-tight).
    let mut ch_ok = FsChallenger::new(b"flock-test-v0");
    assert!(verify_opening(&commitment, claim, z_skip, &x_outer, &honest, &mut ch_ok).is_ok());

    // Truncate the query set to a handful, and to zero. Both must
    // be rejected on proof shape before any position is sampled.
    for keep in [0usize, 1, 8] {
        let mut proof = honest.clone();
        proof.basefold.queries.truncate(keep);
        let mut ch_v = FsChallenger::new(b"flock-test-v0");
        let res = verify_opening(&commitment, claim, z_skip, &x_outer, &proof, &mut ch_v);
        assert!(
            matches!(
                res,
                Err(VerifyError::BaseFold(
                    basefold::VerifyError::InvalidProofShape
                ))
            ),
            "truncating to {keep} queries must be rejected, got {res:?}"
        );
    }
}

/// Direct multilinear evaluation of `ẑ_packed` (the F_{2^128}-packed
/// witness) at a length-L point. Reference computation for the
/// packed-direct claim path.
fn zhat_packed_reference(z_packed: &[F128], point: &[F128]) -> F128 {
    let l = point.len();
    assert_eq!(z_packed.len(), 1usize << l);
    let eq = build_eq_table(point);
    let mut acc = F128::zero();
    for i in 0..z_packed.len() {
        acc += eq[i] * z_packed[i];
    }
    acc
}

/// Roundtrip a single packed-direct claim through `open_batch_mixed` /
/// `verify_opening_batch_mixed`. Dense `eq_ind`.
#[test]
fn pcs_packed_direct_dense_roundtrip() {
    let mut rng = Rng::new(0xDEAD_BEEF);
    for &m in &[8usize, 10, 11] {
        let l = m - LOG_PACKING; // = m - 7
        let z = rng.bits(1 << m);
        let z_packed = pack_witness(&z, m);

        let point: Vec<F128> = (0..l).map(|_| rng.f128()).collect();
        let value = zhat_packed_reference(&z_packed, &point);
        let eq = build_eq_table(&point);

        let pd_claim = PackedDirectClaim {
            point: point.clone(),
            value,
            eq_ind: DirectEqInd::Dense(eq),
        };

        let params = default_params(m);
        let (commitment, prover_data) = commit(&z_packed, &params);

        let mut ch_p = FsChallenger::new(b"flock-test-v0");
        let proof = open_batch_mixed(
            &z_packed,
            &prover_data,
            &commitment,
            &[],
            std::slice::from_ref(&pd_claim),
            &PaddingSpec::dense(m),
            &mut ch_p,
        );

        let pd_ref = PackedDirectClaimRef {
            point: &point,
            value,
        };
        let mut ch_v = FsChallenger::new(b"flock-test-v0");
        verify_opening_batch_mixed(
            &commitment,
            &[],
            &[],
            &[],
            std::slice::from_ref(&pd_ref),
            &proof,
            &mut ch_v,
        )
        .unwrap_or_else(|e| panic!("verify rejected honest packed-direct claim m={m}: {e:?}"));

        // Wrong claim is rejected.
        let mut bad_value = value;
        bad_value.lo ^= 1;
        let pd_bad = PackedDirectClaimRef {
            point: &point,
            value: bad_value,
        };
        let mut ch_v = FsChallenger::new(b"flock-test-v0");
        let res = verify_opening_batch_mixed(
            &commitment,
            &[],
            &[],
            &[],
            std::slice::from_ref(&pd_bad),
            &proof,
            &mut ch_v,
        );
        assert!(matches!(
            res,
            Err(VerifyError::FinalBMismatch) | Err(VerifyError::BaseFold(_))
        ));
    }
}

/// A claim's point is looked at last: where the BaseFold part is refused, so is the batch,
/// whatever the length of the point.
#[test]
fn points_are_looked_at_last() {
    let m = 10;
    let mut rng = Rng::new(0x1A57);
    let z_packed = pack_witness(&rng.bits(1 << m), m);
    let point: Vec<F128> = (0..m - LOG_PACKING).map(|_| rng.f128()).collect();
    let pd_claim = PackedDirectClaim {
        point: point.clone(),
        value: zhat_packed_reference(&z_packed, &point),
        eq_ind: DirectEqInd::Dense(build_eq_table(&point)),
    };
    let (commitment, prover_data) = commit(&z_packed, &default_params(m));
    let mut ch = FsChallenger::new(b"flock-test-v0");
    let mut proof = open_batch_mixed(
        &z_packed,
        &prover_data,
        &commitment,
        &[],
        std::slice::from_ref(&pd_claim),
        &PaddingSpec::dense(m),
        &mut ch,
    );
    proof.basefold.queries.pop();
    for len in [0usize, 2, 3, 4] {
        let other: Vec<F128> = (0..len).map(|_| rng.f128()).collect();
        let pd_ref = PackedDirectClaimRef { point: &other, value: pd_claim.value };
        let mut ch = FsChallenger::new(b"flock-test-v0");
        let res = verify_opening_batch_mixed(
            &commitment,
            &[],
            &[],
            &[],
            std::slice::from_ref(&pd_ref),
            &proof,
            &mut ch,
        );
        assert!(matches!(res, Err(VerifyError::BaseFold(_))), "{len}");
    }
}

/// Roundtrip with sparse `eq_ind` (some zero coords in the point).
#[test]
fn pcs_packed_direct_sparse_roundtrip() {
    let mut rng = Rng::new(0xFACE_F00D);
    for &m in &[10usize, 11] {
        let l = m - LOG_PACKING;
        let z = rng.bits(1 << m);
        let z_packed = pack_witness(&z, m);

        // Build a point with the last 2 coords zero (sparse pattern).
        let mut point: Vec<F128> = (0..l).map(|_| rng.f128()).collect();
        for slot in point.iter_mut().rev().take(2) {
            *slot = F128::zero();
        }
        let value = zhat_packed_reference(&z_packed, &point);
        let sparse_eq = ring_switch::build_eq_sparse(&point);

        let pd_claim = PackedDirectClaim {
            point: point.clone(),
            value,
            eq_ind: DirectEqInd::Sparse(sparse_eq),
        };

        let params = default_params(m);
        let (commitment, prover_data) = commit(&z_packed, &params);

        let mut ch_p = FsChallenger::new(b"flock-test-v0");
        let proof = open_batch_mixed(
            &z_packed,
            &prover_data,
            &commitment,
            &[],
            std::slice::from_ref(&pd_claim),
            &PaddingSpec::dense(m),
            &mut ch_p,
        );

        let pd_ref = PackedDirectClaimRef {
            point: &point,
            value,
        };
        let mut ch_v = FsChallenger::new(b"flock-test-v0");
        verify_opening_batch_mixed(
            &commitment,
            &[],
            &[],
            &[],
            std::slice::from_ref(&pd_ref),
            &proof,
            &mut ch_v,
        )
        .unwrap_or_else(|e| panic!("verify rejected honest sparse packed-direct m={m}: {e:?}"));
    }
}

/// Mixed batch: one ring-switched claim + one packed-direct claim against
/// the same commitment must both verify.
#[test]
fn pcs_mixed_ring_switched_and_packed_direct() {
    let m = 11usize;
    let l = m - LOG_PACKING;
    let mut rng = Rng::new(0xCAFE_BABE);
    let z = rng.bits(1 << m);
    let z_packed = pack_witness(&z, m);

    // Ring-switched claim.
    let z_skip = rng.f128();
    let x_outer: Vec<F128> = (0..(m - 6)).map(|_| rng.f128()).collect();
    let rs_claim = zhat_skip_reference(&z, m, z_skip, &x_outer);

    // Packed-direct claim.
    let pd_point: Vec<F128> = (0..l).map(|_| rng.f128()).collect();
    let pd_value = zhat_packed_reference(&z_packed, &pd_point);
    let pd_eq = build_eq_table(&pd_point);
    let pd_claim = PackedDirectClaim {
        point: pd_point.clone(),
        value: pd_value,
        eq_ind: DirectEqInd::Dense(pd_eq),
    };

    let params = default_params(m);
    let (commitment, prover_data) = commit(&z_packed, &params);

    let mut ch_p = FsChallenger::new(b"flock-test-v0");
    let proof = open_batch_mixed(
        &z_packed,
        &prover_data,
        &commitment,
        &[x_outer.as_slice()],
        std::slice::from_ref(&pd_claim),
        &PaddingSpec::dense(m),
        &mut ch_p,
    );

    let pd_ref = PackedDirectClaimRef {
        point: &pd_point,
        value: pd_value,
    };
    let mut ch_v = FsChallenger::new(b"flock-test-v0");
    verify_opening_batch_mixed(
        &commitment,
        &[rs_claim],
        &[z_skip],
        &[x_outer.as_slice()],
        std::slice::from_ref(&pd_ref),
        &proof,
        &mut ch_v,
    )
    .unwrap_or_else(|e| panic!("mixed batch verify rejected honest proof: {e:?}"));
}

struct Instance {
    z: Vec<bool>,
    z_packed: Vec<F128>,
    z_skip: F128,
    x_outer: Vec<F128>,
    claim: F128,
}

fn instance(m: usize, seed: u64) -> Instance {
    let mut rng = Rng::new(seed);
    let z = rng.bits(1 << m);
    let z_skip = rng.f128();
    let x_outer: Vec<F128> = (0..(m - 6)).map(|_| rng.f128()).collect();
    let claim = zhat_skip_reference(&z, m, z_skip, &x_outer);
    let z_packed = pack_witness(&z, m);
    Instance { z, z_packed, z_skip, x_outer, claim }
}

/// Two points in one batch.
#[test]
fn pcs_batch_roundtrip() {
    let m = 10;
    let a = instance(m, 0x111);
    let mut rng = Rng::new(0x222);
    let z2 = rng.f128();
    let x2: Vec<F128> = (0..(m - 6)).map(|_| rng.f128()).collect();
    let claim2 = zhat_skip_reference(&a.z, m, z2, &x2);
    let (commitment, data) = commit(&a.z_packed, &default_params(m));
    let points = [a.x_outer.as_slice(), x2.as_slice()];
    let mut ch = FsChallenger::new(b"batch");
    let proof = open_batch(&a.z_packed, &data, &commitment, &points, &mut ch);
    let verify = |claims: &[F128], proof: &BatchOpeningProof| {
        let mut ch = FsChallenger::new(b"batch");
        verify_opening_batch(&commitment, claims, &[a.z_skip, z2], &points, proof, &mut ch)
    };
    assert_eq!(verify(&[a.claim, claim2], &proof), Ok(()));
    assert_eq!(
        verify(&[a.claim, claim2 + F128::one()], &proof),
        Err(VerifyError::RingSwitch(ring_switch::VerifyError::ClaimMismatch))
    );
    let mut short = proof.clone();
    short.ring_switches[1].s_hat_v.pop();
    assert_eq!(
        verify(&[a.claim, claim2], &short),
        Err(VerifyError::RingSwitch(ring_switch::VerifyError::InvalidProofShape))
    );
    // The prover and the verifier end in the same state.
    let mut ch_v = FsChallenger::new(b"batch");
    let zs = [a.z_skip, z2];
    assert!(verify_opening_batch(&commitment, &[a.claim, claim2], &zs, &points, &proof, &mut ch_v)
        .is_ok());
    assert_eq!(ch.sample_f128(), ch_v.sample_f128());
}

/// Skipping the padding of a padded witness changes nothing.
#[test]
fn pcs_padding_is_immaterial() {
    let m = 12;
    let mut rng = Rng::new(0x333);
    let mut z = rng.bits(1 << m);
    for (i, bit) in z.iter_mut().enumerate() {
        if i % 1024 >= 700 {
            *bit = false;
        }
    }
    let z_packed = pack_witness(&z, m);
    let x: Vec<F128> = (0..(m - 6)).map(|_| rng.f128()).collect();
    let (commitment, data) = commit(&z_packed, &default_params(m));
    let padding = PaddingSpec { k_log: 10, useful_bits: 700 };
    let mut ch = FsChallenger::new(b"pad");
    let dense = open_batch(&z_packed, &data, &commitment, &[&x], &mut ch);
    let mut ch = FsChallenger::new(b"pad");
    let padded = open_batch_padded(&z_packed, &data, &commitment, &[&x], &padding, &mut ch);
    assert_eq!(dense, padded);
}

/// Each way in which a proof can be wrong has its answer.
#[test]
fn pcs_errors_are_told_apart() {
    let m = 15;
    let a = instance(m, 0x444);
    let (commitment, data) = commit(&a.z_packed, &default_params(m));
    let mut ch = FsChallenger::new(b"err");
    let honest = open(&a.z_packed, &data, &commitment, &a.x_outer, &mut ch);
    let verify = |proof: &OpeningProof| {
        let mut ch = FsChallenger::new(b"err");
        verify_opening(&commitment, a.claim, a.z_skip, &a.x_outer, proof, &mut ch)
    };
    assert_eq!(verify(&honest), Ok(()));
    let bad = |f: &dyn Fn(&mut basefold::BaseFoldProof)| {
        let mut p = honest.clone();
        f(&mut p.basefold);
        match verify(&p) {
            Err(VerifyError::BaseFold(e)) => e,
            other => panic!("{other:?}"),
        }
    };
    assert_eq!(bad(&|p| p.final_a.lo ^= 1), BaseFoldError::SumcheckFinalMismatch);
    assert_eq!(bad(&|p| p.final_codeword[1].hi ^= 2), BaseFoldError::FinalCodewordNotConstant);
    assert_eq!(
        bad(&|p| {
            for x in p.final_codeword.iter_mut() {
                x.lo ^= 1;
            }
        }),
        BaseFoldError::SumcheckFriMismatch
    );
    assert_eq!(
        bad(&|p| p.queries[3].position ^= 1),
        BaseFoldError::FoldMismatch { query_index: 3, epoch: 0 }
    );
    assert_eq!(
        bad(&|p| {
            p.queries[2].initial_leaf.pop();
        }),
        BaseFoldError::InitialMerkleFailed { query_index: 2 }
    );
    assert_eq!(
        bad(&|p| p.initial_multi_proof[0][0] ^= 1),
        BaseFoldError::InitialMerkleFailed { query_index: 0 }
    );
    assert_eq!(
        bad(&|p| p.epoch_multi_proofs[0].push([0; 32])),
        BaseFoldError::RoundMerkleFailed { query_index: 0, epoch: 0 }
    );
    assert_eq!(
        bad(&|p| {
            p.epoch_multi_proofs.pop();
        }),
        BaseFoldError::InvalidProofShape
    );
    // One round too many leaves the number of epochs as it is, and the sumcheck ends
    // elsewhere; many more call for more epoch commitments; too few do not cover the
    // lanes.
    assert_eq!(
        bad(&|p| {
            let m = p.round_messages[0];
            p.round_messages.push(m);
        }),
        BaseFoldError::SumcheckFinalMismatch
    );
    assert_eq!(
        bad(&|p| {
            let m = p.round_messages[0];
            p.round_messages.resize(100, m);
        }),
        BaseFoldError::InvalidProofShape
    );
    assert_eq!(bad(&|p| p.round_messages.clear()), BaseFoldError::InvalidProofShape);
}

/// An untrusted BaseFold proof is answered with an error, whatever its number of rounds
/// and the size of the transform: those of the sumcheck come first, and a codeword that
/// the transform cannot fold, or that no index reaches, is of the wrong shape.
#[test]
fn basefold_refuses_any_shape() {
    let mut rng = Rng::new(0x4242);
    let a: Vec<F128> = (0..16).map(|_| rng.f128()).collect();
    let b: Vec<F128> = (0..16).map(|_| rng.f128()).collect();
    let mut target = F128::zero();
    for (x, y) in a.iter().zip(&b) {
        target += *x * *y;
    }
    let params = PcsParams { m: 11, log_inv_rate: 1, log_batch_size: 1 };
    let (commitment, data) = commit(&a, &params);
    let ntt = AdditiveNttF128::standard(4);
    let mut ch = FsChallenger::new(b"shape");
    let honest = basefold::prove(
        &a,
        b,
        &data.codeword,
        &data.merkle_tree,
        &ntt,
        1,
        1,
        basefold::default_fri_queries(1),
        &mut ch,
    );
    let verify = |proof: &basefold::BaseFoldProof, ntt: &AdditiveNttF128, log_batch: usize| {
        let mut ch = FsChallenger::new(b"shape");
        basefold::verify(target, proof, &commitment.root, ntt, 1, log_batch, &mut ch)
    };
    assert_eq!(verify(&honest, &ntt, 1).unwrap().len(), 4);
    for dim in 0..4 {
        let small = AdditiveNttF128::standard(dim);
        assert_eq!(verify(&honest, &small, 1), Err(BaseFoldError::InvalidProofShape));
    }
    assert_eq!(verify(&honest, &ntt, 1000), Err(BaseFoldError::InvalidProofShape));
    let mut few = honest.clone();
    few.queries.pop();
    few.round_messages.resize(200, honest.round_messages[0]);
    assert_eq!(verify(&few, &ntt, 1), Err(BaseFoldError::InvalidProofShape));
    // 200 rounds with as many epoch commitments as they call for.
    let mut long = honest.clone();
    long.round_messages.resize(200, honest.round_messages[0]);
    long.round_commitments = vec![long.post_row_batch_commit; 33];
    assert_eq!(verify(&long, &ntt, 1), Err(BaseFoldError::SumcheckFinalMismatch));
    // The same with messages, target and final values of zero: the sumcheck holds.
    for m in long.round_messages.iter_mut() {
        m.u_0 = F128::zero();
        m.u_2 = F128::zero();
    }
    long.final_a = F128::zero();
    long.final_codeword = vec![F128::zero(); 2];
    let mut ch = FsChallenger::new(b"shape");
    let got = basefold::verify(F128::zero(), &long, &commitment.root, &ntt, 1, 1, &mut ch);
    assert_eq!(got, Err(BaseFoldError::InvalidProofShape));
    // All rounds taken for lanes: no leaf has that many.
    long.round_commitments = Vec::new();
    let mut ch = FsChallenger::new(b"shape");
    let got = basefold::verify(F128::zero(), &long, &commitment.root, &ntt, 1, 200, &mut ch);
    assert!(matches!(
        got,
        Err(BaseFoldError::FoldMismatch { .. }) | Err(BaseFoldError::InitialMerkleFailed { .. })
    ));
    // A shape that no number of queries mends is wrong at any rate.
    for rate in [0usize, 3, 9] {
        let mut ch = FsChallenger::new(b"shape");
        let got = basefold::verify(target, &honest, &commitment.root, &ntt, rate, 200, &mut ch);
        assert_eq!(got, Err(BaseFoldError::InvalidProofShape));
        let mut more = honest.clone();
        more.round_commitments.push(more.post_row_batch_commit.clone());
        let mut ch = FsChallenger::new(b"shape");
        let got = basefold::verify(target, &more, &commitment.root, &ntt, rate, 1, &mut ch);
        assert_eq!(got, Err(BaseFoldError::InvalidProofShape));
    }
}

/// All coefficients of a batch are sampled after the last value is observed,
/// ring-switched claims first.
#[test]
fn coefficients_come_after_the_values() {
    let m = 10;
    let a = instance(m, 0x9a9a);
    let mut rng = Rng::new(0x9b9b);
    let point: Vec<F128> = (0..(m - LOG_PACKING)).map(|_| rng.f128()).collect();
    let value = zhat_packed_reference(&a.z_packed, &point);
    let claim = PackedDirectClaim {
        point: point.clone(),
        value,
        eq_ind: DirectEqInd::Dense(build_eq_table(&point)),
    };
    let xs = [a.x_outer.as_slice()];
    let mut ch = FsChallenger::new(b"order");
    let combined = compute_combined_basis_and_target(
        &a.z_packed,
        &xs,
        &[],
        &[claim],
        &PaddingSpec::dense(m),
        &mut ch,
    );

    let mut t = FsChallenger::new(b"order");
    t.observe_label(b"flock-pcs-open-batch-v0");
    let switched = ring_switch::verify_succinct(
        a.claim,
        a.z_skip,
        &a.x_outer,
        &combined.ring_switches[0],
        &mut t,
    )
    .unwrap();
    t.observe_label(b"flock-pcs-packed-direct-v0");
    t.observe_f128(value);
    let gamma_rs = t.sample_f128();
    let gamma_pd = t.sample_f128();
    assert_eq!(
        combined.target_combined,
        gamma_rs * switched.sumcheck_claim + gamma_pd * value
    );
    assert_eq!(ch.sample_f128(), t.sample_f128());
}

/// The value of a packed-direct claim at another point is not that of the table.
#[test]
fn pcs_final_b_is_checked() {
    let m = 10;
    let a = instance(m, 0x555);
    let mut rng = Rng::new(0x666);
    let point: Vec<F128> = (0..(m - LOG_PACKING)).map(|_| rng.f128()).collect();
    let value = zhat_packed_reference(&a.z_packed, &point);
    let claim = PackedDirectClaim {
        point: point.clone(),
        value,
        eq_ind: DirectEqInd::Dense(build_eq_table(&point)),
    };
    let (commitment, data) = commit(&a.z_packed, &default_params(m));
    let mut ch = FsChallenger::new(b"final-b");
    let proof = open_batch_mixed(
        &a.z_packed,
        &data,
        &commitment,
        &[],
        &[claim],
        &PaddingSpec::dense(m),
        &mut ch,
    );
    let mut other = point.clone();
    other[0] = other[0] + F128::one();
    for (p, expected) in [(&point, Ok(())), (&other, Err(VerifyError::FinalBMismatch))] {
        let mut ch = FsChallenger::new(b"final-b");
        let r = PackedDirectClaimRef { point: p, value };
        let got = verify_opening_batch_mixed(&commitment, &[], &[], &[], &[r], &proof, &mut ch);
        assert_eq!(got, expected);
    }
}

/// What remains of the combined table after binding its first variables.
#[test]
fn residual_values_are_table_values() {
    let m = 11;
    let a = instance(m, 0x777);
    let mut rng = Rng::new(0x888);
    let l = m - LOG_PACKING;
    let point: Vec<F128> = (0..l).map(|_| rng.f128()).collect();
    let value = zhat_packed_reference(&a.z_packed, &point);
    let claim = PackedDirectClaim {
        point: point.clone(),
        value,
        eq_ind: DirectEqInd::Dense(build_eq_table(&point)),
    };
    let (commitment, data) = commit(&a.z_packed, &default_params(m));
    let mut ch = FsChallenger::new(b"residual");
    let proof = open_batch_mixed(
        &a.z_packed,
        &data,
        &commitment,
        &[&a.x_outer],
        &[claim],
        &PaddingSpec::dense(m),
        &mut ch,
    );
    let mut ch = FsChallenger::new(b"residual");
    let pd = [PackedDirectClaimRef { point: &point, value }];
    let xs = [a.x_outer.as_slice()];
    let reduced =
        reduce_claims(&[a.claim], &[a.z_skip], &xs, &pd, &proof.ring_switches, &mut ch).unwrap();
    for yr_log_n in 0..=l {
        let ris: Vec<F128> = (0..l - yr_log_n).map(|_| rng.f128()).collect();
        let values = reduced.residual_values(&xs, &pd, &ris, yr_log_n);
        assert_eq!(values.len(), 1 << yr_log_n);
        for (y, v) in values.iter().enumerate() {
            let mut full = ris.clone();
            for j in 0..yr_log_n {
                full.push(if (y >> j) & 1 == 1 { F128::one() } else { F128::zero() });
            }
            assert_eq!(*v, reduced.table_value(&xs, &pd, &full));
        }
        if yr_log_n == l {
            // The whole table: its inner product with the witness is the target.
            let mut acc = F128::zero();
            for (b, z) in values.iter().zip(&a.z_packed) {
                acc += *b * *z;
            }
            assert_eq!(acc, reduced.target_combined);
        }
    }
    assert_eq!(backend_verdict(true), Ok(()));
    assert_eq!(
        backend_verdict(false),
        Err(VerifyError::BaseFold(basefold::VerifyError::InvalidProofShape))
    );
}

/// The claim handed to a recursive backend is the same on both sides, and true of the
/// committed message; a wrong ring-switching message is refused before the backend runs.
#[test]
fn backend_claim_is_the_same_on_both_sides() {
    let m = 11;
    let a = instance(m, 0x1717);
    let mut rng = Rng::new(0x1818);
    let l = m - LOG_PACKING;
    let point: Vec<F128> = (0..l).map(|_| rng.f128()).collect();
    let value = zhat_packed_reference(&a.z_packed, &point);
    let claim = PackedDirectClaim {
        point: point.clone(),
        value,
        eq_ind: DirectEqInd::Dense(build_eq_table(&point)),
    };
    let (commitment, _) = commit(&a.z_packed, &default_params(m));
    let xs = [a.x_outer.as_slice()];
    let mut prover = FsChallenger::new(b"backend");
    let combined = compute_combined_basis_and_target(
        &a.z_packed,
        &xs,
        &[],
        &[claim],
        &PaddingSpec::dense(m),
        &mut prover,
    );
    let mut acc = F128::zero();
    for (b, z) in combined.b_combined.iter().zip(&a.z_packed) {
        acc += *b * *z;
    }
    assert_eq!(acc, combined.target_combined);

    let pd = [PackedDirectClaimRef { point: &point, value }];
    let opening = BatchOpeningProofLigerito {
        ring_switches: combined.ring_switches,
        ligerito: 7u8,
    };
    let mut ch = FsChallenger::new(b"backend");
    let claimed = verify_opening_batch_ligerito_mixed(
        &commitment,
        &[a.claim],
        &[a.z_skip],
        &xs,
        &pd,
        &opening,
        &mut ch,
    )
    .unwrap();
    assert_eq!(claimed.log_n, l);
    assert_eq!(claimed.reduced.target_combined, combined.target_combined);
    assert_eq!(claimed.reduced.residual_values(&xs, &pd, &[], l), combined.b_combined);
    // Both transcripts stand at the same place.
    assert_eq!(prover.sample_f128(), ch.sample_f128());

    let mut wrong = opening.clone();
    wrong.ring_switches[0].s_hat_v[0] += F128::one();
    let mut ch = FsChallenger::new(b"backend");
    let got = verify_opening_batch_ligerito_mixed(
        &commitment,
        &[a.claim],
        &[a.z_skip],
        &xs,
        &pd,
        &wrong,
        &mut ch,
    );
    assert!(matches!(got, Err(VerifyError::RingSwitch(_))));
}

/// The sparse table of weights has the weights of the dense one at its positions, and
/// the value of a table of weights is a product over the coordinates.
#[test]
fn sparse_weights_match_dense() {
    let mut rng = Rng::new(0x999);
    let mut point: Vec<F128> = (0..6).map(|_| rng.f128()).collect();
    point[1] = F128::zero();
    point[4] = F128::zero();
    let dense = build_eq_table(&point);
    let sparse = ring_switch::build_eq_sparse(&point);
    assert_eq!(sparse.log_len, 6);
    assert_eq!(sparse.live_positions, vec![0, 2, 3, 5]);
    assert_eq!(sparse.live_tensor.len(), 16);
    for (i, w) in sparse.live_tensor.iter().enumerate() {
        let mut j = 0;
        for (k, p) in sparse.live_positions.iter().enumerate() {
            j |= ((i >> k) & 1) << p;
        }
        assert_eq!(*w, dense[j]);
    }
    assert_eq!(dense.iter().filter(|w| !w.is_zero()).count(), 16);
    let y: Vec<F128> = (0..6).map(|_| rng.f128()).collect();
    let table = build_eq_table(&y);
    let mut acc = F128::zero();
    for (a, b) in dense.iter().zip(&table) {
        acc += *a * *b;
    }
    assert_eq!(eq_eval(&point, &y), acc);
}

/// Partial evaluations that the caller already has are used as they are.
#[test]
fn precomputed_partial_evaluations() {
    let m = 10;
    let a = instance(m, 0xaaa);
    let (commitment, data) = commit(&a.z_packed, &default_params(m));
    let padding = PaddingSpec::dense(m);
    let mut ch = FsChallenger::new(b"pre");
    let proof = open_batch(&a.z_packed, &data, &commitment, &[&a.x_outer], &mut ch);
    let s_hat_v = proof.ring_switches[0].s_hat_v.clone();
    for given in [None, Some(s_hat_v.as_slice())] {
        let mut ch = FsChallenger::new(b"pre");
        let again = open_batch_padded_with_precomputed_s_hat_v(
            &a.z_packed,
            &data,
            &commitment,
            &[&a.x_outer],
            &[given],
            &padding,
            &mut ch,
        );
        assert_eq!(again, proof);
        let mut ch = FsChallenger::new(b"pre");
        let mixed = open_batch_mixed_with_precomputed_s_hat_v(
            &a.z_packed,
            &data,
            &commitment,
            &[&a.x_outer],
            &[given],
            &[],
            &padding,
            &mut ch,
        );
        assert_eq!(mixed, proof);
    }
}

/// Rounds are cut into epochs of six, and the rates have their query counts.
#[test]
fn epochs_and_queries() {
    assert_eq!(compute_fri_arities(17), vec![6, 6, 5]);
    assert_eq!(compute_fri_arities(6), vec![6]);
    assert_eq!(compute_fri_arities(0), Vec::<usize>::new());
    assert_eq!(basefold::default_fri_queries(1), 243);
    assert_eq!(basefold::default_fri_queries(2), 148);
}

/// The other rate.
#[test]
fn pcs_roundtrip_at_rate_one_quarter() {
    let m = 10;
    let a = instance(m, 0xbbb);
    let params = PcsParams { m, log_inv_rate: 2, log_batch_size: 2 };
    let (commitment, data) = commit(&a.z_packed, &params);
    let mut ch = FsChallenger::new(b"quarter");
    let proof = open(&a.z_packed, &data, &commitment, &a.x_outer, &mut ch);
    assert_eq!(proof.basefold.queries.len(), 148);
    let mut ch = FsChallenger::new(b"quarter");
    let r = verify_opening(&commitment, a.claim, a.z_skip, &a.x_outer, &proof, &mut ch);
    assert_eq!(r, Ok(()));
}
