//! Challengers.
use flock_core::challenger::{Challenger, FsChallenger, RandomChallenger};
use flock_core::field::F128;

/// Prover-side PoW grinding produces a nonce that the verifier-side
/// `verify_pow` accepts at the same transcript position. State binding
/// is preserved — sampling after PoW gives identical challenges on both
/// sides.
#[test]
fn fs_challenger_pow_roundtrip() {
    for bits in [0u32, 5, 10, 14] {
        let mut prover = FsChallenger::new(b"pow-test");
        prover.observe_label(b"flock-pow-test");
        prover.observe_bytes(b"some root data");
        let nonce = prover.grind_pow(bits);

        let mut verifier = FsChallenger::new(b"pow-test");
        verifier.observe_label(b"flock-pow-test");
        verifier.observe_bytes(b"some root data");
        assert!(
            verifier.verify_pow(nonce, bits),
            "verify failed at bits={bits}"
        );

        // Subsequent challenges must agree.
        for _ in 0..4 {
            assert_eq!(prover.sample_f128(), verifier.sample_f128());
        }
    }
}

/// `verify_pow` rejects a wrong nonce when grinding bits > 0.
#[test]
fn fs_challenger_pow_rejects_wrong_nonce() {
    let mut prover = FsChallenger::new(b"pow-test");
    prover.observe_bytes(b"root");
    let nonce = prover.grind_pow(10);
    let bad_nonce = nonce.wrapping_add(1);

    let mut verifier = FsChallenger::new(b"pow-test");
    verifier.observe_bytes(b"root");
    assert!(
        !verifier.verify_pow(bad_nonce, 10),
        "should reject wrong nonce"
    );
}

/// At a zero-bit grinding site `verify_pow` accepts the canonical nonce 0
/// (what `grind_pow(0)` emits) but rejects any non-zero nonce, so a proof
/// can't be made malleable by swapping in an arbitrary nonce.
#[test]
fn fs_challenger_pow_zero_bits_requires_canonical_nonce() {
    let mk = || {
        let mut ch = FsChallenger::new(b"pow-test");
        ch.observe_bytes(b"root");
        ch
    };
    assert_eq!(mk().grind_pow(0), 0, "honest zero-bit grind is the 0 nonce");
    assert!(mk().verify_pow(0, 0), "canonical 0 nonce must verify");
    for bad in [1u64, 42, u64::MAX] {
        assert!(
            !mk().verify_pow(bad, 0),
            "non-zero nonce {bad} must be rejected at zero-bit grinding"
        );
    }
}

/// Default Challenger impl (RandomChallenger) is a no-op for PoW.
#[test]
fn random_challenger_pow_is_noop() {
    let mut ch = RandomChallenger::new(0);
    assert_eq!(ch.grind_pow(16), 0);
    assert!(ch.verify_pow(0, 16));
}

#[test]
fn random_challenger_is_deterministic_per_seed() {
    let mut c1 = RandomChallenger::new(42);
    let mut c2 = RandomChallenger::new(42);
    for _ in 0..16 {
        assert_eq!(c1.sample_f128(), c2.sample_f128());
    }
}

#[test]
fn random_challenger_observe_is_noop() {
    // Observing arbitrary messages does not change the sampled values.
    let mut c1 = RandomChallenger::new(7);
    let mut c2 = RandomChallenger::new(7);
    c2.observe_f128(F128 {
        lo: 0xDEADBEEF,
        hi: 0xCAFEBABE,
    });
    c2.observe_f128_slice(&[F128::one(), F128::zero()]);
    c2.observe_label(b"ignored");
    c2.observe_bytes(b"also ignored");
    for _ in 0..8 {
        assert_eq!(c1.sample_f128(), c2.sample_f128());
    }
}

#[test]
fn sample_f128_vec_matches_individual_samples() {
    let mut c1 = RandomChallenger::new(99);
    let mut c2 = RandomChallenger::new(99);
    let batch = c1.sample_f128_vec(5);
    let individual: Vec<F128> = (0..5).map(|_| c2.sample_f128()).collect();
    assert_eq!(batch, individual);
}

// ---- FsChallenger ------------------------------------------------------

#[test]
fn fs_challenger_identical_scripts_produce_identical_output() {
    let mut c1 = FsChallenger::new(b"flock-test");
    let mut c2 = FsChallenger::new(b"flock-test");
    let msg = F128 {
        lo: 0x1234,
        hi: 0x5678,
    };
    c1.observe_f128(msg);
    c2.observe_f128(msg);
    let r1 = c1.sample_f128_vec(8);
    let r2 = c2.sample_f128_vec(8);
    assert_eq!(r1, r2);
}

#[test]
fn fs_challenger_different_domains_diverge() {
    let mut c1 = FsChallenger::new(b"flock-a");
    let mut c2 = FsChallenger::new(b"flock-b");
    assert_ne!(c1.sample_f128(), c2.sample_f128());
}

#[test]
fn fs_challenger_different_observations_diverge() {
    let mut c1 = FsChallenger::new(b"flock");
    let mut c2 = FsChallenger::new(b"flock");
    c1.observe_f128(F128::one());
    c2.observe_f128(F128::zero());
    assert_ne!(c1.sample_f128(), c2.sample_f128());
}

#[test]
fn fs_challenger_label_changes_output() {
    let mut c1 = FsChallenger::new(b"flock");
    let mut c2 = FsChallenger::new(b"flock");
    c1.observe_label(b"phase-A");
    // c2 omits the label entirely.
    assert_ne!(c1.sample_f128(), c2.sample_f128());
}

#[test]
fn fs_challenger_scalar_vs_slice_dont_collide() {
    // observe_f128_slice(&[v]) must NOT produce the same state as
    // observe_f128(v) — the length prefix and kind tag must defeat this.
    let v = F128 { lo: 0xAB, hi: 0xCD };
    let mut c1 = FsChallenger::new(b"flock");
    let mut c2 = FsChallenger::new(b"flock");
    c1.observe_f128(v);
    c2.observe_f128_slice(&[v]);
    assert_ne!(c1.sample_f128(), c2.sample_f128());
}

#[test]
fn fs_challenger_two_scalars_dont_collide_with_one_slice_of_two() {
    let a = F128 { lo: 1, hi: 2 };
    let b = F128 { lo: 3, hi: 4 };
    let mut c1 = FsChallenger::new(b"flock");
    let mut c2 = FsChallenger::new(b"flock");
    c1.observe_f128(a);
    c1.observe_f128(b);
    c2.observe_f128_slice(&[a, b]);
    assert_ne!(c1.sample_f128(), c2.sample_f128());
}

#[test]
fn fs_challenger_sample_one_vs_sample_vec_one_differ() {
    // Squeeze tag differs (KIND_SCALAR vs KIND_SLICE+len), so a single
    // sample_f128 must not equal sample_f128_vec(1)[0].
    let mut c1 = FsChallenger::new(b"flock");
    let mut c2 = FsChallenger::new(b"flock");
    assert_ne!(c1.sample_f128(), c2.sample_f128_vec(1)[0]);
}

#[test]
fn fs_challenger_sample_advances_state() {
    // After a sample, the next observation should not collapse to the
    // pre-sample state (the squeezed bytes are re-absorbed).
    let mut c1 = FsChallenger::new(b"flock");
    let mut c2 = FsChallenger::new(b"flock");
    let _ = c1.sample_f128();
    // c2 skips the sample.
    c1.observe_f128(F128::one());
    c2.observe_f128(F128::one());
    assert_ne!(c1.sample_f128(), c2.sample_f128());
}
