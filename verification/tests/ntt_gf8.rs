//! The additive NTT over GF(2^8).
use flock_core::field::F8;
use flock_core::ntt::{compute_twiddles, AdditiveNttGf8};

struct Rng(u64);
impl Rng {
    fn new(seed: u64) -> Self {
        Self(seed)
    }
    fn next_u64(&mut self) -> u64 {
        self.0 = self.0.wrapping_add(0x9E3779B97F4A7C15);
        let mut z = self.0;
        z = (z ^ (z >> 30)).wrapping_mul(0xBF58476D1CE4E5B9);
        z = (z ^ (z >> 27)).wrapping_mul(0x94D049BB133111EB);
        z ^ (z >> 31)
    }
}

fn rand_vec(rng: &mut Rng, n: usize) -> Vec<F8> {
    (0..n).map(|_| F8((rng.next_u64() & 0xff) as u8)).collect()
}

#[test]
fn twiddles_size() {
    for k in 1..=7 {
        let ntt = AdditiveNttGf8::new(k, F8::zero());
        assert_eq!(ntt.twiddles().len(), (1usize << k) - 1);
    }
}

#[test]
fn ntt_forward_inverse_roundtrip() {
    let mut rng = Rng::new(42);
    for k in 1..=7 {
        let ntt = AdditiveNttGf8::new(k, F8::zero());
        for _ in 0..8 {
            let original = rand_vec(&mut rng, 1 << k);
            let mut v = original.clone();
            ntt.forward(&mut v);
            ntt.inverse(&mut v);
            assert_eq!(v, original, "roundtrip failed at k={k}");
        }
    }
}

#[test]
fn ntt_inverse_forward_roundtrip() {
    let mut rng = Rng::new(43);
    for k in 1..=7 {
        let ntt = AdditiveNttGf8::new(k, F8::zero());
        for _ in 0..8 {
            let original = rand_vec(&mut rng, 1 << k);
            let mut v = original.clone();
            ntt.inverse(&mut v);
            ntt.forward(&mut v);
            assert_eq!(v, original, "inverse∘forward roundtrip failed at k={k}");
        }
    }
}

#[test]
fn ntt_forward_is_linear() {
    let mut rng = Rng::new(44);
    for k in 1..=6 {
        let ntt = AdditiveNttGf8::new(k, F8::zero());
        let n = 1usize << k;
        let a = rand_vec(&mut rng, n);
        let b = rand_vec(&mut rng, n);
        let ab: Vec<F8> = a.iter().zip(&b).map(|(x, y)| *x + *y).collect();

        let mut fa = a.clone();
        ntt.forward(&mut fa);
        let mut fb = b.clone();
        ntt.forward(&mut fb);
        let mut fab = ab.clone();
        ntt.forward(&mut fab);

        for i in 0..n {
            assert_eq!(fa[i] + fb[i], fab[i], "linearity failed at k={k}, i={i}");
        }
    }
}

#[test]
fn nonzero_beta_roundtrip() {
    let mut rng = Rng::new(45);
    for beta_v in [0x01u8, 0x42, 0xCA, 0xFF] {
        let beta = F8(beta_v);
        for k in 1..=6 {
            let ntt = AdditiveNttGf8::new(k, beta);
            let original = rand_vec(&mut rng, 1 << k);
            let mut v = original.clone();
            ntt.forward(&mut v);
            ntt.inverse(&mut v);
            assert_eq!(v, original, "beta={beta_v:#x}, k={k}");
        }
    }
}

/// Two coefficients are the polynomial `c0 + c1·z`, evaluated at `β` and `β + 1`.
#[test]
fn forward_of_two_is_a_line() {
    let beta = F8(0x42);
    let ntt = AdditiveNttGf8::new(1, beta);
    assert_eq!(ntt.k(), 1);
    assert_eq!(ntt.domain_size(), 2);
    assert_eq!(ntt.twiddles(), &[beta]);
    let (c0, c1) = (F8(0x17), F8(0x93));
    let mut v = vec![c0, c1];
    ntt.forward(&mut v);
    assert_eq!(v, vec![c0 + c1 * beta, c0 + c1 * (beta + F8::one())]);
}

/// The third basis polynomial vanishes at 0 and 1 and is one at 2 and 3.
#[test]
fn forward_evaluates_the_third_basis_polynomial() {
    let ntt = AdditiveNttGf8::new(3, F8::zero());
    let mut v = vec![F8::zero(); 8];
    v[2] = F8::one();
    ntt.forward(&mut v);
    assert_eq!(&v[..4], &[F8(0), F8(0), F8(1), F8(1)]);
    // z(z + 1) / (2·3) at z = 4.
    assert_eq!(v[4], F8(4) * F8(5) * (F8(2) * F8(3)).inv());
}

/// Nothing to do on one point, and no twiddles.
#[test]
fn one_point_domain() {
    assert_eq!(compute_twiddles(0, F8(5)).len(), 0);
    let ntt = AdditiveNttGf8::new(0, F8(5));
    let mut v = vec![F8(9)];
    ntt.forward(&mut v);
    ntt.inverse(&mut v);
    assert_eq!(v, vec![F8(9)]);
}

/// The table of a four-point domain: one twiddle for the whole, two for the halves.
#[test]
fn twiddles_of_four_points() {
    let beta = F8(0x10);
    let tw = compute_twiddles(2, beta);
    assert_eq!(tw[1], beta);
    assert_eq!(tw[2], beta + F8(2));
    assert_eq!(tw[0], beta * (beta + F8(1)) * (F8(2) * F8(3)).inv());
}
