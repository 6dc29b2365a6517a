//! SHA-256-based Fiat–Shamir.
//!
//! Tag bytes (one-byte op + one-byte kind) encode the operation type so that
//! e.g. an `observe_f128_slice` of length 1 cannot collide with `observe_f128`,
//! and a slice observation cannot collide with two scalar observations of the
//! same total length.
//!
//! Sampling squeezes challenge bytes via SHA256(state || ctr) and absorbs the
//! squeezed output back into the live state, which binds each subsequent
//! challenge/observation to all prior squeezed output.
use vstd::bytes::{spec_u64_from_le_bytes, spec_u64_to_le_bytes, u64_from_le_bytes, u64_to_le_bytes};
use vstd::prelude::*;
use vstd::slice::slice_subrange;
use crate::bits::bit8;
use crate::challenger::fs_count::FsCounts;
use crate::challenger::Challenger;
use crate::field::F128;
use crate::hash::{
    sha256, sha256_fed, sha256_finalize, sha256_new, sha256_update, Hash32,
};

verus! {

pub const OP_DOMAIN: u8 = 0x01;

pub const OP_LABEL: u8 = 0x02;

pub const OP_OBSERVE: u8 = 0x03;

pub const OP_SQUEEZE: u8 = 0x04;

pub const OP_BYTES: u8 = 0x05;

pub const KIND_SCALAR: u8 = 0x01;

pub const KIND_SLICE: u8 = 0x02;

/// Eight bytes, little-endian.
pub open spec fn le64(x: u64) -> Seq<u8> {
    spec_u64_to_le_bytes(x)
}

/// A length, as eight little-endian bytes.
pub open spec fn length_bytes(n: nat) -> Seq<u8> {
    le64(n as u64)
}

/// An element as sixteen bytes: `lo`, then `hi`.
pub open spec fn element_bytes(v: F128) -> Seq<u8> {
    le64(v.lo) + le64(v.hi)
}

/// The elements' bytes one after the other.
pub open spec fn elements_bytes(vs: Seq<F128>) -> Seq<u8>
    decreases vs.len(),
{
    if vs.len() == 0 {
        Seq::empty()
    } else {
        elements_bytes(vs.drop_last()) + element_bytes(vs.last())
    }
}

/// The element in the sixteen bytes from `at` on.
pub open spec fn element_at(bytes: Seq<u8>, at: int) -> F128 {
    F128 {
        lo: spec_u64_from_le_bytes(bytes.subrange(at, at + 8)),
        hi: spec_u64_from_le_bytes(bytes.subrange(at + 8, at + 16)),
    }
}

/// The first `n` bytes of the stream `SHA256(t || 0) || SHA256(t || 1) || …`.
pub open spec fn squeezed(t: Seq<u8>, n: nat) -> Seq<u8> {
    Seq::new(n, |j: int| sha256(t + le64((j / 32) as u64))[j % 32])
}

/// Whether the first `bits` bits of a digest are zero, the most significant bit
/// of each byte first.
pub open spec fn has_leading_zeros(digest: Seq<u8>, bits: nat) -> bool {
    &&& bits <= 8 * digest.len()
    &&& forall|i: int| 0 <= i < bits ==> !bit8(#[trigger] digest[i / 8], 7 - i % 8)
}

/// Whether the proof-of-work hash of a state digest and a nonce has `bits` leading zeros.
pub open spec fn pow_hash_accepts(state_digest: Seq<u8>, nonce: u64, bits: u32) -> bool {
    has_leading_zeros(sha256(state_digest + le64(nonce)), bits as nat)
}

/// Fiat–Shamir challenger over SHA-256.
pub struct FsChallenger {
    hasher: sha2::Sha256,
    n_absorbed: u64,
    counts: FsCounts,
}

impl Clone for FsChallenger {
    fn clone(&self) -> (r: FsChallenger)
        ensures
            r.state() == self.state(),
            r.hash_counts() == self.hash_counts(),
    {
        proof {
            use_type_invariant(self);
        }
        FsChallenger {
            hasher: self.hasher.clone(),
            n_absorbed: self.n_absorbed,
            counts: self.counts,
        }
    }
}

impl FsChallenger {
    /// The transcript of a fresh challenger.
    pub open spec fn initial(domain: Seq<u8>) -> Seq<u8> {
        seq![OP_DOMAIN] + length_bytes(domain.len()) + domain
    }

    /// The byte counter is the length of the transcript, modulo 2^64.
    #[verifier::type_invariant]
    spec fn counter_is_length(self) -> bool {
        self.n_absorbed == (sha256_fed(self.hasher).len() % 0x1_0000_0000_0000_0000) as u64
    }

    /// The hash-work counters.
    pub closed spec fn hash_counts(&self) -> FsCounts {
        self.counts
    }

    /// New challenger seeded with a domain-separation tag (e.g.
    /// `b"flock-r1cs-v0"`). The domain is length-prefixed before being
    /// absorbed so two domains where one is a prefix of the other cannot
    /// produce the same initial state.
    pub fn new(domain: &[u8]) -> (r: FsChallenger)
        ensures
            r.state() == FsChallenger::initial(domain@),
            r.hash_counts() == (FsCounts { squeezes: 0, pow_sha256: 0 }),
    {
        let mut c = FsChallenger { hasher: sha256_new(), n_absorbed: 0, counts: FsCounts::new() };
        c.absorb(&[OP_DOMAIN]);
        c.absorb_u64(domain.len() as u64);
        c.absorb(domain);
        assert(c.state() =~= FsChallenger::initial(domain@));
        c
    }

    /// Absorb bytes into the running transcript state.
    #[inline]
    fn absorb(&mut self, bytes: &[u8])
        ensures
            final(self).state() == old(self).state() + bytes@,
            final(self).counts == old(self).counts,
    {
        proof {
            use_type_invariant(&*self);
        }
        let mut hasher = self.hasher.clone();
        sha256_update(&mut hasher, bytes);
        *self = FsChallenger {
            hasher,
            n_absorbed: self.n_absorbed.wrapping_add(bytes.len() as u64),
            counts: self.counts,
        };
    }

    #[inline]
    fn absorb_u64(&mut self, x: u64)
        ensures
            final(self).state() == old(self).state() + le64(x),
            final(self).counts == old(self).counts,
    {
        let bytes: Vec<u8> = u64_to_le_bytes(x);
        self.absorb(&bytes);
    }

    #[inline]
    fn absorb_f128(&mut self, v: F128)
        ensures
            final(self).state() == old(self).state() + element_bytes(v),
            final(self).counts == old(self).counts,
    {
        self.absorb_u64(v.lo);
        self.absorb_u64(v.hi);
        assert(old(self).state() + le64(v.lo) + le64(v.hi) =~= old(self).state() + element_bytes(
            v,
        ));
    }

    /// Squeeze `out.len()` pseudorandom bytes from the current transcript
    /// state without mutating it.
    fn squeeze_into(&self, out: &mut [u8])
        ensures
            final(out)@ == squeezed(self.state(), old(out)@.len()),
    {
        let len: usize = out.len();
        let ghost t = self.state();
        let mut off: usize = 0;
        let mut ctr: u64 = 0;
        while off < len
            invariant
                t == self.state(),
                out@.len() == len,
                off <= len,
                off < len ==> off == 32 * ctr,
                forall|j: int|
                    0 <= j < off ==> out@[j] == sha256(t + le64((j / 32) as u64))[j % 32],
            decreases len - off,
        {
            let mut h = self.hasher.clone();
            let counter: Vec<u8> = u64_to_le_bytes(ctr);
            sha256_update(&mut h, &counter);
            let block: Hash32 = sha256_finalize(h);
            let take: usize = if len - off < 32 {
                len - off
            } else {
                32
            };
            let mut k: usize = 0;
            while k < take
                invariant
                    k <= take <= 32,
                    off + take <= len,
                    off == 32 * ctr,
                    out@.len() == len,
                    block@ == sha256(t + le64(ctr)),
                    block@.len() == 32,
                    forall|j: int|
                        0 <= j < off + k ==> out@[j] == sha256(t + le64((j / 32) as u64))[j % 32],
                decreases take - k,
            {
                assert((off + k) / 32 == ctr && (off + k) % 32 == k);
                out[off + k] = block[k];
                k = k + 1;
            }
            off = off + take;
            ctr = ctr.wrapping_add(1);
        }
        assert(out@ =~= squeezed(t, len as nat));
    }

    /// Total bytes absorbed into the transcript so far, modulo 2^64.
    pub fn absorbed_bytes(&self) -> (n: u64)
        ensures
            n == (self.state().len() % 0x1_0000_0000_0000_0000) as u64,
    {
        proof {
            use_type_invariant(self);
        }
        self.n_absorbed
    }

    /// The hash-work counters.
    pub fn counts(&self) -> (r: FsCounts)
        ensures
            r == self.hash_counts(),
    {
        self.counts
    }

    /// Set the hash-work counters back to zero; the transcript stays.
    pub fn reset_counts(&mut self)
        ensures
            final(self).state() == old(self).state(),
            final(self).hash_counts() == (FsCounts { squeezes: 0, pow_sha256: 0 }),
    {
        let mut counts = self.counts;
        crate::challenger::fs_count::reset(&mut counts);
        self.set_counts(counts);
    }

    fn set_counts(&mut self, counts: FsCounts)
        ensures
            final(self).state() == old(self).state(),
            final(self).counts == counts,
    {
        proof {
            use_type_invariant(&*self);
        }
        self.counts = counts;
    }

    /// The digest of the current transcript, the base of a proof of work.
    fn pow_state_digest(&mut self) -> (digest: Hash32)
        ensures
            digest@ == sha256(old(self).state()),
            final(self).state() == old(self).state(),
            final(self).counts.squeezes == old(self).counts.squeezes.wrapping_add(1),
            final(self).counts.pow_sha256 == old(self).counts.pow_sha256,
    {
        self.set_counts(self.counts.with_squeeze());
        sha256_finalize(self.hasher.clone())
    }
}

/// Check whether `SHA256(state_digest || nonce.to_le_bytes())` has at least
/// `bits` leading zero bits.
fn sha256_has_leading_zero_bits(state_digest: &Hash32, nonce: u64, bits: u32) -> (ok: bool)
    ensures
        ok == pow_hash_accepts(state_digest@, nonce, bits),
{
    let mut hasher = sha256_new();
    sha256_update(&mut hasher, state_digest);
    let nonce_bytes: Vec<u8> = u64_to_le_bytes(nonce);
    sha256_update(&mut hasher, &nonce_bytes);
    assert(sha256_fed(hasher) =~= state_digest@ + le64(nonce));
    let h: Hash32 = sha256_finalize(hasher);
    digest_has_leading_zeros(&h, bits)
}

/// Whether the first `bits` bits of a digest are zero.
pub fn digest_has_leading_zeros(h: &Hash32, bits: u32) -> (ok: bool)
    ensures
        ok == has_leading_zeros(h@, bits as nat),
{
    if bits > 256 {
        return false;
    }
    let full_bytes: usize = (bits / 8) as usize;
    let extra: u32 = bits % 8;
    let mut i: usize = 0;
    while i < full_bytes
        invariant
            i <= full_bytes <= 32,
            full_bytes == bits / 8,
            bits <= 256,
            forall|j: int| 0 <= j < 8 * i ==> !bit8(#[trigger] h@[j / 8], 7 - j % 8),
        decreases full_bytes - i,
    {
        let b: u8 = h[i];
        proof {
            lemma_byte_bits(b, 0, 0);
        }
        if b != 0 {
            proof {
                let k = lemma_nonzero_byte(b);
                let j = 8 * i + (7 - k);
                assert(j / 8 == i && j % 8 == 7 - k);
                assert(bit8(h@[j / 8], 7 - j % 8));
            }
            return false;
        }
        assert forall|j: int| 0 <= j < 8 * (i + 1) implies !bit8(
            #[trigger] h@[j / 8],
            7 - j % 8,
        ) by {
            if j >= 8 * i {
                lemma_byte_bits(b, (7 - j % 8) as u8, 0);
            }
        }
        i = i + 1;
    }
    if extra > 0 {
        let b: u8 = h[full_bytes];
        if (b >> (8 - extra)) != 0 {
            proof {
                let k = lemma_nonzero_byte(b >> ((8 - extra) as u8));
                lemma_byte_bits(b, k as u8, (8 - extra) as u8);
                let j = 8 * full_bytes + (extra - 1 - k);
                assert(k < extra);
                assert(j / 8 == full_bytes && j % 8 == extra - 1 - k);
                assert(bit8(h@[j / 8], 7 - j % 8));
            }
            return false;
        }
        assert forall|j: int| 0 <= j < bits implies !bit8(#[trigger] h@[j / 8], 7 - j % 8) by {
            if j >= 8 * full_bytes {
                let m = j % 8;
                lemma_byte_bits(b, (extra - 1 - m) as u8, (8 - extra) as u8);
                lemma_byte_bits(b >> ((8 - extra) as u8), (extra - 1 - m) as u8, 0);
            }
        }
    }
    true
}

proof fn lemma_byte_bits(b: u8, k: u8, s: u8)
    by (bit_vector)
    ensures
        b == 0 ==> (b >> k) & 1 == 0,
        s < 8 && k < 8 && s + k < 8 ==> ((b >> s) >> k) & 1 == (b >> ((s + k) as u8)) & 1,
        s < 8 && k < 8 && s + k >= 8 ==> ((b >> s) >> k) & 1 == 0,
        b != 0 ==> b & 1 == 1 || (b >> 1u8) & 1 == 1 || (b >> 2u8) & 1 == 1 || (b >> 3u8) & 1 == 1
            || (b >> 4u8) & 1 == 1 || (b >> 5u8) & 1 == 1 || (b >> 6u8) & 1 == 1 || (b >> 7u8) & 1
            == 1,
        b >> 0u8 == b,
{
}

proof fn lemma_nonzero_byte(b: u8) -> (k: int)
    requires
        b != 0,
    ensures
        0 <= k < 8,
        bit8(b, k),
{
    lemma_byte_bits(b, 0, 0);
    if bit8(b, 0) {
        0
    } else if bit8(b, 1) {
        1
    } else if bit8(b, 2) {
        2
    } else if bit8(b, 3) {
        3
    } else if bit8(b, 4) {
        4
    } else if bit8(b, 5) {
        5
    } else if bit8(b, 6) {
        6
    } else {
        7
    }
}

impl Challenger for FsChallenger {
    /// The transcript: all bytes absorbed so far.
    type State = Seq<u8>;

    closed spec fn state(&self) -> Seq<u8> {
        sha256_fed(self.hasher)
    }

    open spec fn after_label(s: Seq<u8>, label: Seq<u8>) -> Seq<u8> {
        s + (seq![OP_LABEL] + length_bytes(label.len()) + label)
    }

    open spec fn after_f128(s: Seq<u8>, value: F128) -> Seq<u8> {
        s + (seq![OP_OBSERVE, KIND_SCALAR] + element_bytes(value))
    }

    open spec fn after_f128_slice(s: Seq<u8>, values: Seq<F128>) -> Seq<u8> {
        s + (seq![OP_OBSERVE, KIND_SLICE] + length_bytes(values.len()) + elements_bytes(values))
    }

    open spec fn after_bytes(s: Seq<u8>, bytes: Seq<u8>) -> Seq<u8> {
        s + (seq![OP_BYTES] + length_bytes(bytes.len()) + bytes)
    }

    open spec fn challenge(s: Seq<u8>) -> F128 {
        element_at(squeezed(s + seq![OP_SQUEEZE, KIND_SCALAR], 16), 0)
    }

    open spec fn after_sample(s: Seq<u8>) -> Seq<u8> {
        let t = s + seq![OP_SQUEEZE, KIND_SCALAR];
        t + squeezed(t, 16)
    }

    open spec fn challenge_vec(s: Seq<u8>, n: nat) -> Seq<F128> {
        let t = s + (seq![OP_SQUEEZE, KIND_SLICE] + length_bytes(n));
        Seq::new(n, |i: int| element_at(squeezed(t, n * 16), 16 * i))
    }

    open spec fn after_sample_vec(s: Seq<u8>, n: nat) -> Seq<u8> {
        let t = s + (seq![OP_SQUEEZE, KIND_SLICE] + length_bytes(n));
        t + squeezed(t, n * 16)
    }

    proof fn lemma_challenge_count(s: Seq<u8>, n: nat) {
    }

    /// Without proof of work only the canonical nonce 0 is accepted.
    open spec fn pow_accepts(s: Seq<u8>, nonce: u64, bits: u32) -> bool {
        if bits == 0 {
            nonce == 0
        } else {
            pow_hash_accepts(sha256(s), nonce, bits)
        }
    }

    open spec fn after_pow(s: Seq<u8>, nonce: u64) -> Seq<u8> {
        Self::after_bytes(s, le64(nonce))
    }

    fn observe_label(&mut self, label: &[u8])
        ensures
            final(self).hash_counts() == old(self).hash_counts(),
    {
        self.absorb(&[OP_LABEL]);
        self.absorb_u64(label.len() as u64);
        self.absorb(label);
        assert(self.state() =~= Self::after_label(old(self).state(), label@));
    }

    fn observe_f128(&mut self, value: F128)
        ensures
            final(self).hash_counts() == old(self).hash_counts(),
    {
        self.absorb(&[OP_OBSERVE, KIND_SCALAR]);
        self.absorb_f128(value);
        assert(self.state() =~= Self::after_f128(old(self).state(), value));
    }

    fn observe_f128_slice(&mut self, values: &[F128])
        ensures
            final(self).hash_counts() == old(self).hash_counts(),
    {
        let ghost s0 = self.state();
        self.absorb(&[OP_OBSERVE, KIND_SLICE]);
        self.absorb_u64(values.len() as u64);
        let ghost head = s0 + seq![OP_OBSERVE, KIND_SLICE] + length_bytes(values@.len());
        let mut i: usize = 0;
        assert(values@.take(0) =~= Seq::<F128>::empty());
        assert(head + elements_bytes(values@.take(0)) =~= head);
        while i < values.len()
            invariant
                i <= values@.len(),
                self.state() == head + elements_bytes(values@.take(i as int)),
                self.counts == old(self).counts,
            decreases values.len() - i,
        {
            self.absorb_f128(values[i]);
            proof {
                let next = values@.take(i + 1);
                assert(next.drop_last() =~= values@.take(i as int));
                assert(head + elements_bytes(values@.take(i as int)) + element_bytes(values@[i as int])
                    =~= head + elements_bytes(next));
            }
            i = i + 1;
        }
        assert(values@.take(values@.len() as int) =~= values@);
        assert(self.state() =~= Self::after_f128_slice(s0, values@));
    }

    fn observe_bytes(&mut self, bytes: &[u8])
        ensures
            final(self).hash_counts() == old(self).hash_counts(),
    {
        self.absorb(&[OP_BYTES]);
        self.absorb_u64(bytes.len() as u64);
        self.absorb(bytes);
        assert(self.state() =~= Self::after_bytes(old(self).state(), bytes@));
    }

    fn sample_f128(&mut self) -> (r: F128)
        ensures
            final(self).hash_counts().squeezes == old(self).hash_counts().squeezes.wrapping_add(1),
            final(self).hash_counts().pow_sha256 == old(self).hash_counts().pow_sha256,
    {
        self.set_counts(self.counts.with_squeeze());
        self.absorb(&[OP_SQUEEZE, KIND_SCALAR]);
        let mut buf: Vec<u8> = vec![0u8;16];
        self.squeeze_into(&mut buf);
        self.absorb(&buf);
        assert(seq![OP_SQUEEZE, KIND_SCALAR] =~= [OP_SQUEEZE, KIND_SCALAR]@);
        element_from_bytes(&buf, 0)
    }

    fn sample_f128_vec(&mut self, n: usize) -> (r: Vec<F128>)
        ensures
            final(self).hash_counts().squeezes == old(self).hash_counts().squeezes.wrapping_add(1),
            final(self).hash_counts().pow_sha256 == old(self).hash_counts().pow_sha256,
    {
        let ghost s0 = self.state();
        self.set_counts(self.counts.with_squeeze());
        self.absorb(&[OP_SQUEEZE, KIND_SLICE]);
        self.absorb_u64(n as u64);
        let ghost t = s0 + (seq![OP_SQUEEZE, KIND_SLICE] + length_bytes(n as nat));
        assert(self.state() =~= t);
        let mut buf: Vec<u8> = vec![0u8;n * 16];
        self.squeeze_into(&mut buf);
        self.absorb(&buf);
        let mut r: Vec<F128> = Vec::with_capacity(n);
        let mut i: usize = 0;
        while i < n
            invariant
                i <= n,
                n * 16 <= usize::MAX,
                buf@ == squeezed(t, (n * 16) as nat),
                r@.len() == i,
                forall|j: int| 0 <= j < i ==> #[trigger] r@[j] == element_at(buf@, 16 * j),
            decreases n - i,
        {
            let e = element_from_bytes(&buf, 16 * i);
            r.push(e);
            i = i + 1;
        }
        assert(r@ =~= Self::challenge_vec(s0, n as nat));
        r
    }

    fn grind_pow(&mut self, bits: u32) -> (nonce: u64)
        ensures
            final(self).hash_counts().squeezes == old(self).hash_counts().squeezes.wrapping_add(1),
            final(self).hash_counts().pow_sha256 == if bits == 0 {
                old(self).hash_counts().pow_sha256
            } else {
                old(self).hash_counts().pow_sha256.wrapping_add(nonce.wrapping_add(1))
            },
    {
        let ghost s0 = self.state();
        let state_digest: Hash32 = self.pow_state_digest();
        let mut nonce: u64 = 0;
        if bits != 0 {
            self.set_counts(self.counts.with_pow());
            let mut found: bool = sha256_has_leading_zero_bits(&state_digest, nonce, bits);
            while !found && nonce < u64::MAX
                invariant
                    state_digest@ == sha256(s0),
                    bits != 0,
                    found == pow_hash_accepts(sha256(s0), nonce, bits),
                    forall|n: u64|
                        n < nonce ==> !(#[trigger] Self::pow_accepts(s0, n, bits)),
                    self.state() == s0,
                    self.counts.squeezes == old(self).counts.squeezes.wrapping_add(1),
                    self.counts.pow_sha256 == old(self).counts.pow_sha256.wrapping_add(
                        nonce.wrapping_add(1),
                    ),
                decreases u64::MAX - nonce,
            {
                nonce = nonce + 1;
                self.set_counts(self.counts.with_pow());
                found = sha256_has_leading_zero_bits(&state_digest, nonce, bits);
            }
        }
        // Absorb the nonce so subsequent transcript state binds to it.
        let nonce_bytes: Vec<u8> = u64_to_le_bytes(nonce);
        self.observe_bytes(&nonce_bytes);
        nonce
    }

    fn verify_pow(&mut self, nonce: u64, bits: u32) -> (ok: bool)
        ensures
            final(self).hash_counts().squeezes == old(self).hash_counts().squeezes.wrapping_add(1),
            final(self).hash_counts().pow_sha256 == if bits == 0 {
                old(self).hash_counts().pow_sha256
            } else {
                old(self).hash_counts().pow_sha256.wrapping_add(1)
            },
    {
        let state_digest: Hash32 = self.pow_state_digest();
        let ok: bool = if bits == 0 {
            nonce == 0
        } else {
            self.set_counts(self.counts.with_pow());
            sha256_has_leading_zero_bits(&state_digest, nonce, bits)
        };
        let nonce_bytes: Vec<u8> = u64_to_le_bytes(nonce);
        self.observe_bytes(&nonce_bytes);
        ok
    }
}

fn element_from_bytes(bytes: &[u8], at: usize) -> (r: F128)
    requires
        at + 16 <= bytes@.len(),
    ensures
        r == element_at(bytes@, at as int),
{
    let n: usize = bytes.len();
    assert(at + 16 <= n);
    F128 {
        lo: u64_from_le_bytes(slice_subrange(bytes, at, at + 8)),
        hi: u64_from_le_bytes(slice_subrange(bytes, at + 8, at + 16)),
    }
}

} // verus!
