//! The permutation argument.
use flock_core::challenger::{Challenger, FsChallenger};
use flock_core::field::F128;
use flock_core::pcs::residual::BackendClaim;
use flock_core::pcs::ring_switch::RingSwitchProof;
use flock_core::pcs::{
    commit, BatchOpening, BatchOpeningProofLigerito, PackedDirectClaimRef, PcsParams, LOG_PACKING,
};
use flock_core::permutation::check::{self, verify};
use flock_core::permutation::prover::{self, prove};
use flock_core::permutation::tables::{
    batch_inverse, build_grand_product, fold_in_place, s_id_basis, s_id_eval, v_open_points,
};
use flock_core::permutation::{
    PermutationClaim, PermutationHead, PermutationProof, Proved, Verified, VerifyError,
};

/// The simplest recursive backend there is: its proof is the committed message itself.
type Message = Vec<F128>;

/// Whether the message is the committed one and its inner product with the table is the
/// target.
fn message_holds(
    root: &[u8; 32],
    claim: &PermutationClaim,
    points: &[Vec<F128>; 5],
    backend: &BackendClaim,
    message: &Message,
) -> bool {
    let params = PcsParams {
        m: backend.log_n + LOG_PACKING,
        log_inv_rate: 1,
        log_batch_size: 1,
    };
    if message.len() != 1 << backend.log_n || commit(message, &params).0.root != *root {
        return false;
    }
    let values = [claim.v_x0, claim.v_x1, claim.v_1x, claim.v_0x, F128::one()];
    let pd: Vec<PackedDirectClaimRef> = points
        .iter()
        .zip(values)
        .map(|(point, value)| PackedDirectClaimRef { point, value })
        .collect();
    let table = backend.reduced.residual_values(&[], &pd, &[], backend.log_n);
    let mut acc = F128::zero();
    for (a, b) in message.iter().zip(&table) {
        acc += *a * *b;
    }
    acc == backend.reduced.target_combined
}

/// Prove, with the backend where there is need of it.
fn complete<C: Challenger>(
    f: &[F128],
    g: &[F128],
    sigma: &[usize],
    ch: &mut C,
) -> (PermutationProof<Message>, PermutationClaim) {
    match prove(f, g, sigma, ch) {
        Proved::Done(proof, claim) => (proof, claim),
        Proved::Backend(pending) => {
            let mut acc = F128::zero();
            for (a, b) in pending.v.iter().zip(&pending.combined.b_combined) {
                acc += *a * *b;
            }
            assert_eq!(acc, pending.combined.target_combined);
            let message = pending.v.clone();
            prover::finish(pending, message)
        }
    }
}

/// Verify, with the backend where there is need of it.
fn decide<C: Challenger>(
    mu: usize,
    proof: &PermutationProof<Message>,
    ch: &mut C,
) -> Result<PermutationClaim, VerifyError> {
    match verify(mu, proof, ch)? {
        Verified::Done(claim) => Ok(claim),
        Verified::Backend {
            claim,
            points,
            backend,
        } => {
            let accepted = match &proof.v_open {
                BatchOpening::Ligerito(o) => {
                    message_holds(&proof.v_root, &claim, &points, &backend, &o.ligerito)
                }
                BatchOpening::BaseFold(_) => unreachable!(),
            };
            check::finish(claim, accepted)
        }
    }
}

/// The value at `idx` of the linear function with the given basis.
fn s_id_value(idx: usize, basis: &[F128]) -> F128 {
    let mut acc = F128::zero();
    for (i, b) in basis.iter().enumerate() {
        if (idx >> i) & 1 == 1 {
            acc += *b;
        }
    }
    acc
}

/// The multilinear extension of a table at a point.
fn mle_eval(table: &[F128], point: &[F128]) -> F128 {
    let mut t = table.to_vec();
    for &r in point {
        fold_in_place(&mut t, r);
    }
    t[0]
}

/// SplitMix64.
struct Rng(u64);
impl Rng {
    fn new(seed: u64) -> Self {
        Self(seed)
    }
    fn next_u64(&mut self) -> u64 {
        self.0 = self.0.wrapping_add(0x9E37_79B9_7F4A_7C15);
        let mut z = self.0;
        z = (z ^ (z >> 30)).wrapping_mul(0xBF58_476D_1CE4_E5B9);
        z = (z ^ (z >> 27)).wrapping_mul(0x94D0_49BB_1331_11EB);
        z ^ (z >> 31)
    }
    fn f128(&mut self) -> F128 {
        F128::new(self.next_u64(), self.next_u64())
    }
    fn permutation(&mut self, n: usize) -> Vec<usize> {
        let mut p: Vec<usize> = (0..n).collect();
        for i in (1..n).rev() {
            let j = (self.next_u64() % (i as u64 + 1)) as usize;
            p.swap(i, j);
        }
        p
    }
}

fn invert(sigma: &[usize]) -> Vec<usize> {
    let mut inv = vec![0usize; sigma.len()];
    for (x, &sx) in sigma.iter().enumerate() {
        inv[sx] = x;
    }
    inv
}

/// Build an honest instance: random `g`, permutation `σ`, and
/// `f(x) = g(σ⁻¹(x))` so the multiset `{(f,s_id)} = {(g,s_σ)}` holds.
fn honest_instance(mu: usize, seed: u64) -> (Vec<F128>, Vec<F128>, Vec<usize>) {
    let n = 1usize << mu;
    let mut rng = Rng::new(seed);
    let g: Vec<F128> = (0..n).map(|_| rng.f128()).collect();
    let sigma = rng.permutation(n);
    let sinv = invert(&sigma);
    let f: Vec<F128> = (0..n).map(|x| g[sinv[x]]).collect();
    (f, g, sigma)
}

fn bind<C: Challenger>(ch: &mut C, f: &[F128], g: &[F128], sigma: &[usize]) {
    ch.observe_f128_slice(f);
    ch.observe_f128_slice(g);
    for &s in sigma {
        ch.observe_f128(F128::new(s as u64, 0));
    }
}

fn run_prove(
    f: &[F128],
    g: &[F128],
    sigma: &[usize],
) -> (PermutationProof<Message>, PermutationClaim) {
    let mut ch = FsChallenger::new(b"perm-test");
    bind(&mut ch, f, g, sigma);
    complete(f, g, sigma, &mut ch)
}

fn run_verify(
    mu: usize,
    f: &[F128],
    g: &[F128],
    sigma: &[usize],
    proof: &PermutationProof<Message>,
) -> Result<PermutationClaim, VerifyError> {
    let mut ch = FsChallenger::new(b"perm-test");
    bind(&mut ch, f, g, sigma);
    decide(mu, proof, &mut ch)
}

#[test]
fn honest_roundtrip_and_claim_match() {
    // Spans both backend regimes for `v` (log_n = μ+1): BaseFold at μ≤6
    // (log_n ≤ 7 < 8) and Ligerito at μ≥7 (log_n ≥ 8).
    for mu in 1..=8 {
        let (f, g, sigma) = honest_instance(mu, 0xC0FFEE ^ mu as u64);
        let (proof, claim_p) = run_prove(&f, &g, &sigma);
        assert_eq!(proof.claimed_product, F128::one(), "μ={mu}: ∏ℓ ≠ 1");
        let claim_v = run_verify(mu, &f, &g, &sigma, &proof).expect("verify");
        assert_eq!(claim_p, claim_v, "μ={mu}: prover/verifier claim mismatch");
    }
}

#[test]
fn claim_matches_direct_mle() {
    let mu = 6;
    let (f, g, sigma) = honest_instance(mu, 0xABCD);
    let (_proof, claim) = run_prove(&f, &g, &sigma);

    // Rebuild the witness-derived polys to evaluate their MLEs directly.
    let mut ch = FsChallenger::new(b"perm-test");
    bind(&mut ch, &f, &g, &sigma);
    ch.observe_label(b"flock-perm-v0");
    let beta = ch.sample_f128();
    let gamma = ch.sample_f128();
    let n = 1usize << mu;
    let basis = s_id_basis(mu);
    let s_id_vec: Vec<F128> = (0..n).map(|x| s_id_value(x, &basis)).collect();
    let s_sig_vec: Vec<F128> = (0..n).map(|x| s_id_value(sigma[x], &basis)).collect();
    let p: Vec<F128> = (0..n).map(|x| f[x] + beta * s_id_vec[x] + gamma).collect();
    let q: Vec<F128> = (0..n).map(|x| g[x] + beta * s_sig_vec[x] + gamma).collect();
    let q_inv = batch_inverse(&q);
    let leaves: Vec<F128> = (0..n).map(|x| p[x] * q_inv[x]).collect();
    let v = build_grand_product(&leaves);

    let rho = &claim.rho;
    assert_eq!(claim.f_eval, mle_eval(&f, rho));
    assert_eq!(claim.g_eval, mle_eval(&g, rho));
    assert_eq!(claim.s_sigma_eval, mle_eval(&s_sig_vec, rho));
    // The leaf value ℓ(ρ) lives inside v as v(0,ρ) = v_0x (checked below).
    assert_eq!(claim.v_0x, mle_eval(&leaves, rho));

    // v evaluations: low bit selects (·,0)/(·,1); high bit selects (0,·)/(1,·).
    let mut pt_x0 = vec![F128::zero()];
    pt_x0.extend_from_slice(rho);
    let mut pt_x1 = vec![F128::one()];
    pt_x1.extend_from_slice(rho);
    let mut pt_1x = rho.clone();
    pt_1x.push(F128::one());
    let mut pt_0x = rho.clone();
    pt_0x.push(F128::zero());
    assert_eq!(claim.v_x0, mle_eval(&v, &pt_x0));
    assert_eq!(claim.v_x1, mle_eval(&v, &pt_x1));
    assert_eq!(claim.v_1x, mle_eval(&v, &pt_1x));
    assert_eq!(claim.v_0x, mle_eval(&v, &pt_0x));
    assert_eq!(v[2 * n - 2], F128::one());
}

#[test]
fn tampered_witness_rejected() {
    let mu = 5;
    let (f, g, sigma) = honest_instance(mu, 0x1234);
    let (proof, _) = run_prove(&f, &g, &sigma);

    // Verifier binds a different f (flip one entry): challenges diverge, so
    // the sumcheck final consistency fails.
    let mut f_bad = f.clone();
    f_bad[3] += F128::one();
    let res = run_verify(mu, &f_bad, &g, &sigma, &proof);
    assert!(
        matches!(res, Err(VerifyError::SumcheckFinalFailed)),
        "got {res:?}"
    );
}

#[test]
fn non_permutation_relation_rejected() {
    // f is NOT a permutation of g ⇒ honest prover's ∏h ≠ 1 ⇒ RootNotOne.
    let mu = 4;
    let n = 1usize << mu;
    let mut rng = Rng::new(0x9999);
    let g: Vec<F128> = (0..n).map(|_| rng.f128()).collect();
    let f: Vec<F128> = (0..n).map(|_| rng.f128()).collect(); // unrelated
    let sigma: Vec<usize> = (0..n).collect(); // identity tag
    let (proof, _) = run_prove(&f, &g, &sigma);
    assert_ne!(proof.claimed_product, F128::one(), "expected ∏h ≠ 1");
    let res = run_verify(mu, &f, &g, &sigma, &proof);
    assert_eq!(res, Err(VerifyError::RootNotOne));
}

#[test]
fn tampered_basefold_opening_rejected() {
    // μ=5 → v has log_n=6, below Ligerito's floor, so it opens with BaseFold.
    // Corrupt the final value of the opening of `v`: the sumcheck and root checks still pass (evals
    // + claimed_product are untouched), so the rejection comes purely from the
    // PCS opening no longer matching the committed `v`.
    let mu = 5;
    let (f, g, sigma) = honest_instance(mu, 0x2468);
    let (mut proof, _) = run_prove(&f, &g, &sigma);
    match &mut proof.v_open {
        BatchOpening::BaseFold(bf) => bf.basefold.final_a.lo ^= 1,
        BatchOpening::Ligerito(_) => panic!("μ={mu} should use BaseFold for v"),
    }
    let res = run_verify(mu, &f, &g, &sigma, &proof);
    assert!(matches!(res, Err(VerifyError::PcsOpen(_))), "got {res:?}");
}

/// The tag of an index, its multilinear extension in closed form, and the points that
/// the product polynomial is opened at.
#[test]
fn tags_and_opening_points() {
    let mut rng = Rng::new(0x5150);
    let mu = 4;
    let basis = s_id_basis(mu);
    assert_eq!(basis[3], F128::new(8, 0));
    assert_eq!(s_id_basis(66)[65], F128::new(0, 2));
    let tags: Vec<F128> = (0..1usize << mu).map(|x| s_id_value(x, &basis)).collect();
    assert_eq!(tags[11], F128::new(11, 0));
    let rho: Vec<F128> = (0..mu).map(|_| rng.f128()).collect();
    assert_eq!(s_id_eval(&basis, &rho), mle_eval(&tags, &rho));
    let points = v_open_points(&rho);
    assert_eq!(points[0][0], F128::zero());
    assert_eq!(points[1][0], F128::one());
    assert_eq!(points[2][mu], F128::one());
    assert_eq!(points[3][mu], F128::zero());
    let v: Vec<F128> = (0..2usize << mu).map(|_| rng.f128()).collect();
    assert_eq!(mle_eval(&v, &points[4]), v[(2 << mu) - 2]);
}

/// Inverses of many elements at once, and the tree of products.
#[test]
fn inverses_and_products() {
    let mut rng = Rng::new(0x5151);
    let values: Vec<F128> = (0..37).map(|_| rng.f128()).collect();
    let inverses = batch_inverse(&values);
    for (x, y) in values.iter().zip(&inverses) {
        assert_eq!(*x * *y, F128::one());
    }
    let leaves = &values[..8];
    let v = build_grand_product(leaves);
    assert_eq!(&v[..8], leaves);
    for i in 0..7 {
        assert_eq!(v[8 + i], v[2 * i] * v[2 * i + 1]);
    }
    assert_eq!(v[14], leaves.iter().fold(F128::one(), |a, b| a * *b));
    assert_eq!(v[15], F128::zero());
}

/// The prover and the verifier end in the same state.
#[test]
fn states_agree_after_a_proof() {
    for mu in [3, 7] {
        let (f, g, sigma) = honest_instance(mu, 0x77);
        let mut ch_p = FsChallenger::new(b"perm-test");
        bind(&mut ch_p, &f, &g, &sigma);
        let (proof, _) = complete(&f, &g, &sigma, &mut ch_p);
        let mut ch_v = FsChallenger::new(b"perm-test");
        bind(&mut ch_v, &f, &g, &sigma);
        assert!(decide(mu, &proof, &mut ch_v).is_ok());
        assert_eq!(ch_p.sample_f128(), ch_v.sample_f128());
    }
}

#[test]
fn backend_is_adaptive_to_size() {
    // μ=6: v has log_n=7 < 8 → BaseFold.
    let (f, g, sigma) = honest_instance(6, 0x66);
    let (p6, _) = run_prove(&f, &g, &sigma);
    assert!(matches!(p6.v_open, BatchOpening::BaseFold(_)));
    run_verify(6, &f, &g, &sigma, &p6).expect("μ=6 BaseFold verify");

    // μ=7: v has log_n=8 ≥ 8 → Ligerito. Still verifies end-to-end.
    let (f, g, sigma) = honest_instance(7, 0x77);
    let (p7, _) = run_prove(&f, &g, &sigma);
    assert!(matches!(p7.v_open, BatchOpening::Ligerito(_)));
    run_verify(7, &f, &g, &sigma, &p7).expect("μ=7 Ligerito verify");
}

/// An opening of the other backend is refused, at both sizes.
#[test]
fn other_backend_is_refused() {
    let (f, g, sigma) = honest_instance(6, 0x66);
    let (mut p6, _) = run_prove(&f, &g, &sigma);
    let small = match &p6.v_open {
        BatchOpening::BaseFold(o) => o.clone(),
        BatchOpening::Ligerito(_) => unreachable!(),
    };
    p6.v_open = BatchOpening::Ligerito(BatchOpeningProofLigerito {
        ring_switches: Vec::new(),
        ligerito: Vec::new(),
    });
    let res = run_verify(6, &f, &g, &sigma, &p6);
    assert_eq!(res, Err(VerifyError::BackendMismatch));

    let (f, g, sigma) = honest_instance(7, 0x77);
    let (mut p7, _) = run_prove(&f, &g, &sigma);
    p7.v_open = BatchOpening::BaseFold(small);
    let res = run_verify(7, &f, &g, &sigma, &p7);
    assert_eq!(res, Err(VerifyError::BackendMismatch));
}

/// An opening that is not reached is not looked at: with ring-switching messages that no
/// opening of `v` has, the earlier errors are reported as without them.
#[test]
fn earlier_errors_come_before_the_opening() {
    let extra = RingSwitchProof { s_hat_v: Vec::new() };
    let add_message = |proof: &mut PermutationProof<Message>| match &mut proof.v_open {
        BatchOpening::BaseFold(o) => o.ring_switches.push(extra.clone()),
        BatchOpening::Ligerito(o) => o.ring_switches.push(extra.clone()),
    };
    // The sumcheck does not end at the value of the evaluations.
    let (f, g, sigma) = honest_instance(5, 0x51);
    let (mut proof, _) = run_prove(&f, &g, &sigma);
    add_message(&mut proof);
    proof.f_eval += F128::one();
    let res = run_verify(5, &f, &g, &sigma, &proof);
    assert_eq!(res, Err(VerifyError::SumcheckFinalFailed));
    // The product is not one.
    let mut other = f.clone();
    other[0] += F128::one();
    let (mut proof, _) = run_prove(&other, &g, &sigma);
    add_message(&mut proof);
    let res = run_verify(5, &other, &g, &sigma, &proof);
    assert_eq!(res, Err(VerifyError::RootNotOne));
    // The opening is of the other backend.
    let (mut proof, _) = run_prove(&f, &g, &sigma);
    proof.v_open = BatchOpening::Ligerito(BatchOpeningProofLigerito {
        ring_switches: vec![extra.clone()],
        ligerito: Vec::new(),
    });
    let res = run_verify(5, &f, &g, &sigma, &proof);
    assert_eq!(res, Err(VerifyError::BackendMismatch));
}

/// A proof of more rounds than a commitment could have is answered all the same.
#[test]
fn many_rounds_are_answered() {
    let (f, g, sigma) = honest_instance(5, 0x52);
    let (mut proof, _) = run_prove(&f, &g, &sigma);
    proof.rounds = vec![(F128::one(), F128::zero()); 100];
    let res = run_verify(100, &f, &g, &sigma, &proof);
    assert_eq!(res, Err(VerifyError::SumcheckFinalFailed));
}

/// What the backend refuses is refused.
#[test]
fn backend_decides_at_large_sizes() {
    let (f, g, sigma) = honest_instance(7, 0x78);
    let (mut proof, claim) = run_prove(&f, &g, &sigma);
    match &mut proof.v_open {
        BatchOpening::Ligerito(o) => o.ligerito[5] += F128::one(),
        BatchOpening::BaseFold(_) => unreachable!(),
    }
    let res = run_verify(7, &f, &g, &sigma, &proof);
    assert!(matches!(res, Err(VerifyError::PcsOpen(_))), "got {res:?}");
    assert_eq!(check::finish(claim.clone(), true), Ok(claim));
}

/// What is handed to the backend: the head of the proof, the table and its commitment.
#[test]
fn pending_proof_holds_the_table() {
    let (f, g, sigma) = honest_instance(7, 0x79);
    let mut ch = FsChallenger::new(b"perm-test");
    bind(&mut ch, &f, &g, &sigma);
    match prove::<FsChallenger, Message>(&f, &g, &sigma, &mut ch) {
        Proved::Done(..) => panic!("μ=7 should use the backend"),
        Proved::Backend(pending) => {
            let (again, _) = commit(&pending.v, &pending.commitment.params);
            assert_eq!(again.root, pending.head.v_root);
            assert_eq!(pending.commitment.root, pending.head.v_root);
            assert_eq!(pending.v.len(), 256);
            assert_eq!(pending.v[254], F128::one());
            assert!(pending.combined.ring_switches.is_empty());
            let head: PermutationHead = pending.head.clone();
            let (proof, claim) = prover::finish(pending, Message::new());
            assert_eq!(proof.f_eval, head.f_eval);
            assert_eq!(proof.rounds, head.rounds);
            assert_eq!(claim.v_0x, head.v_0x);
        }
    }
}
