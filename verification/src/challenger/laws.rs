//! What the Fiat–Shamir transcript promises: it determines the operations that led
//! to it, and grinding and checking a proof of work agree.
use vstd::arithmetic::div_mod::{
    lemma_fundamental_div_mod, lemma_fundamental_div_mod_converse, lemma_small_mod,
};
use vstd::arithmetic::power2::lemma2_to64;
use vstd::bits::lemma_u64_shr_is_div;
use vstd::bytes::{lemma_auto_spec_u64_to_from_le_bytes, spec_u64_from_le_bytes};
use vstd::prelude::*;
use crate::bits::bit8;
use crate::challenger::fs::{
    element_at, element_bytes, elements_bytes, le64, length_bytes, squeezed, FsChallenger, KIND_SCALAR,
    KIND_SLICE, OP_BYTES, OP_DOMAIN, OP_LABEL, OP_OBSERVE, OP_SQUEEZE,
};
use crate::challenger::random::{splitmix64_next, splitmix64_word, RandomChallenger};
use crate::challenger::Challenger;
use crate::field::F128;
use crate::hash::sha256;
use crate::r1cs::laws::{lemma_le64_prefix, lemma_same_prefix};

verus! {

/// An operation on a challenger.
pub enum Operation {
    Label(Seq<u8>),
    Scalar(F128),
    Slice(Seq<F128>),
    Bytes(Seq<u8>),
    Sample,
    SampleVec(nat),
}

impl Operation {
    /// The length that the operation carries fits eight bytes.
    pub open spec fn fits(self) -> bool {
        match self {
            Operation::Label(l) => l.len() <= u64::MAX,
            Operation::Scalar(_) => true,
            Operation::Slice(v) => v.len() <= u64::MAX,
            Operation::Bytes(b) => b.len() <= u64::MAX,
            Operation::Sample => true,
            Operation::SampleVec(n) => n <= u64::MAX,
        }
    }

    /// The transcript after the operation.
    pub open spec fn after(self, s: Seq<u8>) -> Seq<u8> {
        match self {
            Operation::Label(l) => FsChallenger::after_label(s, l),
            Operation::Scalar(v) => FsChallenger::after_f128(s, v),
            Operation::Slice(v) => FsChallenger::after_f128_slice(s, v),
            Operation::Bytes(b) => FsChallenger::after_bytes(s, b),
            Operation::Sample => FsChallenger::after_sample(s),
            Operation::SampleVec(n) => FsChallenger::after_sample_vec(s, n),
        }
    }

    /// The two bytes that tell the kinds of operations apart; operations with one tag
    /// byte have a zero here.
    spec fn tag(self) -> (u8, u8) {
        match self {
            Operation::Label(_) => (OP_LABEL, 0),
            Operation::Scalar(_) => (OP_OBSERVE, KIND_SCALAR),
            Operation::Slice(_) => (OP_OBSERVE, KIND_SLICE),
            Operation::Bytes(_) => (OP_BYTES, 0),
            Operation::Sample => (OP_SQUEEZE, KIND_SCALAR),
            Operation::SampleVec(_) => (OP_SQUEEZE, KIND_SLICE),
        }
    }

    /// What the operation appends behind its tag.
    spec fn payload(self, s: Seq<u8>) -> Seq<u8> {
        match self {
            Operation::Label(l) => length_bytes(l.len()) + l,
            Operation::Scalar(v) => element_bytes(v),
            Operation::Slice(v) => length_bytes(v.len()) + elements_bytes(v),
            Operation::Bytes(b) => length_bytes(b.len()) + b,
            Operation::Sample => squeezed(s + seq![OP_SQUEEZE, KIND_SCALAR], 16),
            Operation::SampleVec(n) => length_bytes(n) + squeezed(
                s + (seq![OP_SQUEEZE, KIND_SLICE] + length_bytes(n)),
                n * 16,
            ),
        }
    }

    spec fn tag_bytes(self) -> Seq<u8> {
        match self {
            Operation::Label(_) => seq![OP_LABEL],
            Operation::Bytes(_) => seq![OP_BYTES],
            _ => seq![self.tag().0, self.tag().1],
        }
    }
}

/// An operation appends its tag and its payload.
proof fn lemma_after(op: Operation, s: Seq<u8>, p: Seq<u8>)
    ensures
        op.after(s) + p == s + (op.tag_bytes() + (op.payload(s) + p)),
{
    assert(op.after(s) + p =~= s + (op.tag_bytes() + (op.payload(s) + p)));
}

proof fn lemma_element_prefix(a: F128, b: F128, p: Seq<u8>, q: Seq<u8>)
    requires
        element_bytes(a) + p == element_bytes(b) + q,
    ensures
        a == b,
        p == q,
{
    assert(element_bytes(a) + p =~= le64(a.lo) + (le64(a.hi) + p));
    assert(element_bytes(b) + q =~= le64(b.lo) + (le64(b.hi) + q));
    lemma_le64_prefix(a.lo, b.lo, le64(a.hi) + p, le64(b.hi) + q);
    lemma_le64_prefix(a.hi, b.hi, p, q);
}

pub(crate) proof fn lemma_elements_prefix(a: Seq<F128>, b: Seq<F128>, p: Seq<u8>, q: Seq<u8>)
    requires
        a.len() == b.len(),
        elements_bytes(a) + p == elements_bytes(b) + q,
    ensures
        a == b,
        p == q,
    decreases a.len(),
{
    if a.len() == 0 {
        assert(a =~= b);
        assert(elements_bytes(a) + p =~= p);
        assert(elements_bytes(b) + q =~= q);
    } else {
        let (a0, b0) = (a.drop_last(), b.drop_last());
        assert(elements_bytes(a) + p =~= elements_bytes(a0) + (element_bytes(a.last()) + p));
        assert(elements_bytes(b) + q =~= elements_bytes(b0) + (element_bytes(b.last()) + q));
        lemma_elements_prefix(a0, b0, element_bytes(a.last()) + p, element_bytes(b.last()) + q);
        lemma_element_prefix(a.last(), b.last(), p, q);
        assert(a =~= a0.push(a.last()));
        assert(b =~= b0.push(b.last()));
    }
}

/// Strings that are preceded by their lengths.
proof fn lemma_counted_prefix(a: Seq<u8>, b: Seq<u8>, p: Seq<u8>, q: Seq<u8>)
    requires
        a.len() <= u64::MAX,
        b.len() <= u64::MAX,
        (length_bytes(a.len()) + a) + p == (length_bytes(b.len()) + b) + q,
    ensures
        a == b,
        p == q,
{
    assert((length_bytes(a.len()) + a) + p =~= le64(a.len() as u64) + (a + p));
    assert((length_bytes(b.len()) + b) + q =~= le64(b.len() as u64) + (b + q));
    lemma_le64_prefix(a.len() as u64, b.len() as u64, a + p, b + q);
    assert(a =~= (a + p).take(a.len() as int));
    assert(b =~= (b + q).take(b.len() as int));
    lemma_same_prefix(a, p, q);
}

/// No operation's bytes begin another's: the first operation after a common
/// transcript can be read off.
proof fn lemma_operation_prefix(s: Seq<u8>, x: Operation, y: Operation, p: Seq<u8>, q: Seq<u8>)
    requires
        x.fits(),
        y.fits(),
        x.after(s) + p == y.after(s) + q,
    ensures
        x == y,
        p == q,
{
    lemma_after(x, s, p);
    lemma_after(y, s, q);
    let (xb, yb) = (x.payload(s) + p, y.payload(s) + q);
    lemma_same_prefix(s, x.tag_bytes() + xb, y.tag_bytes() + yb);
    let common = x.tag_bytes() + xb;
    assert(common[0] == x.tag().0);
    assert(common == y.tag_bytes() + yb);
    assert(common[0] == y.tag().0);
    assert(x.tag_bytes().len() == 2 ==> common[1] == x.tag().1);
    assert(y.tag_bytes().len() == 2 ==> common[1] == y.tag().1);
    assert(x.tag() == y.tag());
    lemma_same_prefix(x.tag_bytes(), xb, yb);
    match x {
        Operation::Label(l) => {
            lemma_counted_prefix(l, y->Label_0, p, q);
        },
        Operation::Bytes(b) => {
            lemma_counted_prefix(b, y->Bytes_0, p, q);
        },
        Operation::Scalar(v) => {
            lemma_element_prefix(v, y->Scalar_0, p, q);
        },
        Operation::Slice(v) => {
            let w = y->Slice_0;
            assert(xb =~= le64(v.len() as u64) + (elements_bytes(v) + p));
            assert(yb =~= le64(w.len() as u64) + (elements_bytes(w) + q));
            lemma_le64_prefix(
                v.len() as u64,
                w.len() as u64,
                elements_bytes(v) + p,
                elements_bytes(w) + q,
            );
            lemma_elements_prefix(v, w, p, q);
        },
        Operation::Sample => {
            lemma_same_prefix(x.payload(s), p, q);
        },
        Operation::SampleVec(n) => {
            let m = y->SampleVec_0;
            let xs = squeezed(s + (seq![OP_SQUEEZE, KIND_SLICE] + length_bytes(n)), n * 16);
            let ys = squeezed(s + (seq![OP_SQUEEZE, KIND_SLICE] + length_bytes(m)), m * 16);
            assert(xb =~= le64(n as u64) + (xs + p));
            assert(yb =~= le64(m as u64) + (ys + q));
            lemma_le64_prefix(n as u64, m as u64, xs + p, ys + q);
            lemma_same_prefix(xs, p, q);
        },
    }
}

/// The transcript after a script of operations.
pub open spec fn transcript(s: Seq<u8>, ops: Seq<Operation>) -> Seq<u8>
    decreases ops.len(),
{
    if ops.len() == 0 {
        s
    } else {
        transcript(ops[0].after(s), ops.drop_first())
    }
}

/// A script only appends to the transcript.
proof fn lemma_transcript_extends(s: Seq<u8>, ops: Seq<Operation>) -> (p: Seq<u8>)
    ensures
        transcript(s, ops) == s + p,
        ops.len() > 0 ==> p.len() > 0,
    decreases ops.len(),
{
    if ops.len() == 0 {
        assert(s + Seq::<u8>::empty() =~= s);
        Seq::empty()
    } else {
        let op = ops[0];
        let r = lemma_transcript_extends(op.after(s), ops.drop_first());
        lemma_after(op, s, r);
        op.tag_bytes() + (op.payload(s) + r)
    }
}

/// The transcript determines the script: from a common transcript, two scripts of
/// operations lead to the same transcript only if they are the same operations, with
/// the same contents, in the same order. In particular one scalar is never taken for a
/// slice of one, two scalars for a slice of two, an omitted label or sample for a
/// present one.
pub proof fn lemma_transcript_is_injective(s: Seq<u8>, x: Seq<Operation>, y: Seq<Operation>)
    requires
        forall|i: int| 0 <= i < x.len() ==> (#[trigger] x[i]).fits(),
        forall|i: int| 0 <= i < y.len() ==> (#[trigger] y[i]).fits(),
        transcript(s, x) == transcript(s, y),
    ensures
        x == y,
    decreases x.len(),
{
    let p = lemma_transcript_extends(s, x);
    let q = lemma_transcript_extends(s, y);
    assert((s + p).len() == s.len() + p.len());
    assert((s + q).len() == s.len() + q.len());
    if x.len() == 0 {
        if y.len() > 0 {
            assert(q.len() > 0);
        } else {
            assert(x =~= y);
        }
        assert(transcript(s, x) == s);
    } else if y.len() == 0 {
        assert(transcript(s, y) == s);
        assert(p.len() > 0);
    } else {
        let (a, b) = (x[0], y[0]);
        let (xs, ys) = (x.drop_first(), y.drop_first());
        let u = lemma_transcript_extends(a.after(s), xs);
        let v = lemma_transcript_extends(b.after(s), ys);
        lemma_operation_prefix(s, a, b, u, v);
        assert forall|i: int| 0 <= i < xs.len() implies (#[trigger] xs[i]).fits() by {
            assert(x[i + 1].fits());
        }
        assert forall|i: int| 0 <= i < ys.len() implies (#[trigger] ys[i]).fits() by {
            assert(y[i + 1].fits());
        }
        lemma_transcript_is_injective(a.after(s), xs, ys);
        assert(x =~= seq![a] + xs);
        assert(y =~= seq![b] + ys);
    }
}

/// The domain is part of the transcript: scripts over different domains, one a prefix
/// of the other or not, never lead to the same transcript.
pub proof fn lemma_domains_are_separated(
    d: Seq<u8>,
    e: Seq<u8>,
    x: Seq<Operation>,
    y: Seq<Operation>,
)
    requires
        d.len() <= u64::MAX,
        e.len() <= u64::MAX,
        transcript(FsChallenger::initial(d), x) == transcript(FsChallenger::initial(e), y),
    ensures
        d == e,
{
    let p = lemma_transcript_extends(FsChallenger::initial(d), x);
    let q = lemma_transcript_extends(FsChallenger::initial(e), y);
    let tag = seq![OP_DOMAIN];
    let (dc, ec) = ((length_bytes(d.len()) + d) + p, (length_bytes(e.len()) + e) + q);
    assert(FsChallenger::initial(d) + p =~= tag + dc);
    assert(FsChallenger::initial(e) + q =~= tag + ec);
    lemma_same_prefix(tag, dc, ec);
    lemma_counted_prefix(d, e, p, q);
}

/// What `grind_pow` returns for a state.
pub open spec fn ground<Ch: Challenger>(s: Ch::State, nonce: u64, bits: u32) -> bool {
    &&& Ch::pow_accepts(s, nonce, bits) || (forall|n: u64|
        !(#[trigger] Ch::pow_accepts(s, n, bits)))
    &&& forall|n: u64| n < nonce ==> !(#[trigger] Ch::pow_accepts(s, n, bits))
}

/// Wherever there is a proof of work at all, the nonce that the prover grinds is one
/// that the verifier accepts in the same state, and the smallest one, so that it does
/// not depend on how the search is organised. Both absorb it alike.
pub proof fn lemma_ground_nonce_is_accepted<Ch: Challenger>(
    s: Ch::State,
    nonce: u64,
    other: u64,
    bits: u32,
)
    requires
        ground::<Ch>(s, nonce, bits),
        Ch::pow_accepts(s, other, bits),
    ensures
        Ch::pow_accepts(s, nonce, bits),
        nonce <= other,
{
}

/// Where no proof of work is asked for, the prover's nonce is zero and the verifier
/// accepts no other.
pub proof fn lemma_zero_bits_nonce_is_canonical(s: Seq<u8>, nonce: u64)
    requires
        ground::<FsChallenger>(s, nonce, 0),
    ensures
        nonce == 0,
        forall|n: u64| #[trigger] FsChallenger::pow_accepts(s, n, 0) <==> n == 0,
{
    assert(FsChallenger::pow_accepts(s, 0, 0));
}

// ---------------------------------------------------------------------------
// Sampling
// ---------------------------------------------------------------------------

/// The bytes of the element in some bytes are those bytes.
proof fn lemma_bytes_of_element_at(bytes: Seq<u8>, at: int)
    requires
        0 <= at,
        at + 16 <= bytes.len(),
    ensures
        element_bytes(element_at(bytes, at)) == bytes.subrange(at, at + 16),
{
    lemma_auto_spec_u64_to_from_le_bytes();
    let (x, y) = (bytes.subrange(at, at + 8), bytes.subrange(at + 8, at + 16));
    assert(x.len() == 8 && y.len() == 8);
    assert(le64(element_at(bytes, at).lo) == x);
    assert(le64(element_at(bytes, at).hi) == y);
    assert(x + y =~= bytes.subrange(at, at + 16));
}

/// A challenge is a digest of the whole transcript: its sixteen bytes are the first ones of
/// the SHA-256 digest of all that was absorbed, the mark of a scalar sample and a zero
/// counter, and they are absorbed in turn.
pub proof fn lemma_challenge_is_digest(s: Seq<u8>)
    ensures
        element_bytes(FsChallenger::challenge(s)) == Seq::new(
            16,
            |j: int| sha256(s + seq![OP_SQUEEZE, KIND_SCALAR] + le64(0))[j],
        ),
        FsChallenger::after_sample(s) == s + seq![OP_SQUEEZE, KIND_SCALAR] + element_bytes(
            FsChallenger::challenge(s),
        ),
{
    let t = s + seq![OP_SQUEEZE, KIND_SCALAR];
    let b = squeezed(t, 16);
    lemma_bytes_of_element_at(b, 0);
    assert(b.subrange(0, 16) =~= b);
    assert(b =~= Seq::new(16, |j: int| sha256(t + le64(0))[j]));
}

/// The challenges of a vector are cut out of the digests of the whole transcript, the mark of
/// a vector sample with its length and a counter, two challenges to a digest, and they
/// are absorbed in turn.
pub proof fn lemma_challenges_are_digests(s: Seq<u8>, n: nat, i: int)
    requires
        0 <= i < n,
    ensures
        element_bytes(FsChallenger::challenge_vec(s, n)[i]) == Seq::new(
            16,
            |j: int|
                sha256(
                    s + (seq![OP_SQUEEZE, KIND_SLICE] + length_bytes(n)) + le64((i / 2) as u64),
                )[16 * (i % 2) + j],
        ),
        FsChallenger::after_sample_vec(s, n) == s + (seq![OP_SQUEEZE, KIND_SLICE] + length_bytes(n))
            + elements_bytes(FsChallenger::challenge_vec(s, n)),
{
    let t = s + (seq![OP_SQUEEZE, KIND_SLICE] + length_bytes(n));
    let b = squeezed(t, n * 16);
    let c = FsChallenger::challenge_vec(s, n);
    lemma_bytes_of_element_at(b, 16 * i);
    let want = Seq::new(16, |j: int| sha256(t + le64((i / 2) as u64))[16 * (i % 2) + j]);
    assert forall|j: int| 0 <= j < 16 implies b.subrange(16 * i, 16 * i + 16)[j] == want[j] by {
        assert((16 * i + j) / 32 == i / 2);
        assert((16 * i + j) % 32 == 16 * (i % 2) + j);
    }
    assert(b.subrange(16 * i, 16 * i + 16) =~= want);
    lemma_elements_of_stream(b, c, n);
    assert(b.subrange(0, 16 * n as int) =~= b);
    assert(c.take(n as int) =~= c);
}

proof fn lemma_elements_of_stream(bytes: Seq<u8>, c: Seq<F128>, k: nat)
    requires
        k <= c.len(),
        bytes.len() == 16 * c.len(),
        forall|i: int| 0 <= i < c.len() ==> #[trigger] c[i] == element_at(bytes, 16 * i),
    ensures
        elements_bytes(c.take(k as int)) == bytes.subrange(0, 16 * k as int),
    decreases k,
{
    if k == 0 {
        assert(bytes.subrange(0, 0) =~= Seq::<u8>::empty());
    } else {
        let p = (k - 1) as nat;
        lemma_elements_of_stream(bytes, c, p);
        assert(c.take(k as int).drop_last() =~= c.take(p as int));
        assert(c[p as int] == element_at(bytes, 16 * p as int));
        lemma_bytes_of_element_at(bytes, 16 * p as int);
        assert(bytes.subrange(0, 16 * k as int) =~= bytes.subrange(0, 16 * p as int)
            + bytes.subrange(16 * p as int, 16 * p as int + 16));
    }
}

/// Whether the top `r` bits of a byte are clear, as a bound on the byte.
proof fn lemma_top_bits(b: u8, r: u8, e: u16)
    by (bit_vector)
    requires
        r <= 8,
        r + e == 8,
    ensures
        (b as u16) < (1u16 << e) <==> ((r > 0 ==> (b >> 7u8) & 1 != 1) && (r > 1 ==> (b >> 6u8) & 1
            != 1) && (r > 2 ==> (b >> 5u8) & 1 != 1) && (r > 3 ==> (b >> 4u8) & 1 != 1) && (r > 4
            ==> (b >> 3u8) & 1 != 1) && (r > 5 ==> (b >> 2u8) & 1 != 1) && (r > 6 ==> (b >> 1u8) & 1
            != 1) && (r > 7 ==> (b >> 0u8) & 1 != 1)),
        1u16 << 0u16 == 1,
{
}

proof fn lemma_top_bits_clear(b: u8, r: int)
    requires
        0 <= r <= 8,
    ensures
        (b as u16) < (1u16 << ((8 - r) as u16)) <==> (forall|k: int|
            0 <= k < r ==> !(#[trigger] bit8(b, 7 - k))),
        r == 8 ==> (b == 0 <==> (forall|k: int| 0 <= k < r ==> !(#[trigger] bit8(b, 7 - k)))),
{
    lemma_top_bits(b, r as u8, (8 - r) as u16);
    if forall|k: int| 0 <= k < r ==> !(#[trigger] bit8(b, 7 - k)) {
        assert(r > 0 ==> !bit8(b, 7 - 0));
        assert(r > 1 ==> !bit8(b, 7 - 1));
        assert(r > 2 ==> !bit8(b, 7 - 2));
        assert(r > 3 ==> !bit8(b, 7 - 3));
        assert(r > 4 ==> !bit8(b, 7 - 4));
        assert(r > 5 ==> !bit8(b, 7 - 5));
        assert(r > 6 ==> !bit8(b, 7 - 6));
        assert(r > 7 ==> !bit8(b, 7 - 7));
    }
}

/// A proof of work of `bits` bits is a nonce whose digest, behind that of the transcript, has
/// `bits / 8` zero bytes first and then, if bits are left over, a byte with that many zeros
/// on top.
pub proof fn lemma_proof_of_work_is_small_digest(s: Seq<u8>, nonce: u64, bits: u32)
    requires
        bits > 0,
    ensures
        ({
            let d = sha256(sha256(s) + le64(nonce));
            let full = bits as int / 8;
            let left = bits as int % 8;
            FsChallenger::pow_accepts(s, nonce, bits) <==> {
                &&& bits <= 8 * d.len()
                &&& forall|i: int| 0 <= i < full ==> #[trigger] d[i] == 0
                &&& left > 0 ==> (d[full] as u16) < (1u16 << ((8 - left) as u16))
            }
        }),
{
    let d = sha256(sha256(s) + le64(nonce));
    let full = bits as int / 8;
    let left = bits as int % 8;
    if FsChallenger::pow_accepts(s, nonce, bits) {
        assert forall|i: int| 0 <= i < full implies #[trigger] d[i] == 0 by {
            assert forall|k: int| 0 <= k < 8 implies !(#[trigger] bit8(d[i], 7 - k)) by {
                let q = 8 * i + k;
                assert(q / 8 == i && q % 8 == k);
                assert(!bit8(d[q / 8], 7 - q % 8));
            }
            lemma_top_bits_clear(d[i], 8);
        }
        assert forall|k: int| 0 <= k < left implies !(#[trigger] bit8(d[full], 7 - k)) by {
            let q = 8 * full + k;
            assert(q / 8 == full && q % 8 == k);
            assert(!bit8(d[q / 8], 7 - q % 8));
        }
        lemma_top_bits_clear(d[full], left);
    }
    if {
        &&& bits <= 8 * d.len()
        &&& forall|i: int| 0 <= i < full ==> #[trigger] d[i] == 0
        &&& left > 0 ==> (d[full] as u16) < (1u16 << ((8 - left) as u16))
    } {
        assert forall|q: int| 0 <= q < bits implies !bit8(#[trigger] d[q / 8], 7 - q % 8) by {
            let (i, k) = (q / 8, q % 8);
            if i < full {
                assert(d[i] == 0);
                lemma_top_bits_clear(d[i], 8);
                assert(!bit8(d[i], 7 - k));
            } else {
                assert(i == full && k < left);
                lemma_top_bits_clear(d[full], left);
                assert(!bit8(d[full], 7 - k));
            }
        }
    }
}

// ---------------------------------------------------------------------------
// The encoding
// ---------------------------------------------------------------------------

/// What each operation writes behind the transcript: a tag, then the length where there is
/// one, then the contents.
pub proof fn lemma_written_bytes(
    s: Seq<u8>,
    label: Seq<u8>,
    value: F128,
    values: Seq<F128>,
    bytes: Seq<u8>,
    nonce: u64,
)
    requires
        label.len() <= u64::MAX,
        values.len() <= u64::MAX,
        bytes.len() <= u64::MAX,
    ensures
        FsChallenger::initial(label) == seq![1u8] + le64(label.len() as u64) + label,
        FsChallenger::after_label(s, label) == s + (seq![2u8] + le64(label.len() as u64) + label),
        FsChallenger::after_f128(s, value) == s + (seq![3u8, 1u8] + element_bytes(value)),
        FsChallenger::after_f128_slice(s, values) == s + (seq![3u8, 2u8] + le64(
            values.len() as u64,
        ) + elements_bytes(values)),
        FsChallenger::after_bytes(s, bytes) == s + (seq![5u8] + le64(bytes.len() as u64) + bytes),
        FsChallenger::after_pow(s, nonce) == s + (seq![5u8] + le64(8) + le64(nonce)),
        OP_SQUEEZE == 4,
        KIND_SCALAR == 1,
        KIND_SLICE == 2,
        element_bytes(value).len() == 16,
        spec_u64_from_le_bytes(element_bytes(value).subrange(0, 8)) == value.lo,
        spec_u64_from_le_bytes(element_bytes(value).subrange(8, 16)) == value.hi,
{
    lemma_auto_spec_u64_to_from_le_bytes();
    assert(element_bytes(value).subrange(0, 8) =~= le64(value.lo));
    assert(element_bytes(value).subrange(8, 16) =~= le64(value.hi));
}

/// A sequence of elements is written one element after the other, sixteen bytes each.
pub proof fn lemma_written_elements(values: Seq<F128>, i: int)
    requires
        0 <= i < values.len(),
    ensures
        elements_bytes(values).len() == 16 * values.len(),
        elements_bytes(values).subrange(16 * i, 16 * i + 16) == element_bytes(values[i]),
    decreases values.len(),
{
    lemma_auto_spec_u64_to_from_le_bytes();
    let init = values.drop_last();
    assert(element_bytes(values.last()).len() == 16);
    if init.len() > 0 {
        lemma_written_elements(init, if i < init.len() { i } else { 0 });
    } else {
        assert(elements_bytes(init).len() == 0);
    }
    let at = 16 * i;
    if i < init.len() {
        assert(elements_bytes(values).subrange(at, at + 16) =~= elements_bytes(init).subrange(
            at,
            at + 16,
        ));
    } else {
        assert(elements_bytes(values).subrange(at, at + 16) =~= element_bytes(values[i]));
    }
}

/// The seeded challenges follow from the seed and the number of samples alone: nothing that is
/// observed changes them.
pub proof fn lemma_seeded_challenges_ignore_observations(
    s: u64,
    label: Seq<u8>,
    value: F128,
    values: Seq<F128>,
    bytes: Seq<u8>,
    nonce: u64,
    bits: u32,
)
    ensures
        RandomChallenger::after_label(s, label) == s,
        RandomChallenger::after_f128(s, value) == s,
        RandomChallenger::after_f128_slice(s, values) == s,
        RandomChallenger::after_bytes(s, bytes) == s,
        RandomChallenger::after_pow(s, nonce) == s,
        RandomChallenger::pow_accepts(s, nonce, bits),
        RandomChallenger::after_sample(s) == (s + 2 * 0x9E3779B97F4A7C15) % 0x1_0000_0000_0000_0000,
{
}

/// `x · y` modulo `2^64`.
pub open spec fn product64(x: u64, y: u64) -> u64 {
    ((x as int * y as int) % 0x1_0000_0000_0000_0000) as u64
}

/// The finalizer of SplitMix64: two rounds of folding the high bits onto the low ones and
/// multiplying, and one more fold.
pub open spec fn finalized(x: u64) -> u64 {
    let a = product64(x ^ (x / 0x4000_0000), 0xBF58476D1CE4E5B9);
    let b = product64(a ^ (a / 0x800_0000), 0x94D049BB133111EB);
    b ^ (b / 0x8000_0000)
}

/// The seeded challenge number `n` is made of the SplitMix64 words number `2·n + 1` and
/// `2·n + 2` of the seed.
pub proof fn lemma_seeded_challenges_are_splitmix64(seed: u64, n: nat, i: int)
    requires
        0 <= i < n,
    ensures
        ({
            let at = |k: int| ((seed + k * 0x9E3779B97F4A7C15) % 0x1_0000_0000_0000_0000) as u64;
            let c = RandomChallenger::challenge_vec(seed, n)[i];
            &&& RandomChallenger::challenge_vec(seed, n).len() == n
            &&& c.lo == finalized(at(2 * i + 1))
            &&& c.hi == finalized(at(2 * i + 2))
        }),
{
    lemma_stepped(seed, i as nat);
    let s = RandomChallenger::stepped(seed, i as nat);
    let g = 0x9E3779B97F4A7C15int;
    let w = 0x1_0000_0000_0000_0000int;
    let s1 = splitmix64_next(s);
    let s2 = splitmix64_next(s1);
    lemma_word_is_finalized(s1);
    lemma_word_is_finalized(s2);
    lemma_next(seed + 2 * i * g, s);
    lemma_next(seed + (2 * i + 1) * g, s1);
    assert(s1 == (seed + (2 * i + 1) * g) % w);
    assert(s2 == (seed + (2 * i + 2) * g) % w);
}

proof fn lemma_next(x: int, s: u64)
    requires
        s == x % 0x1_0000_0000_0000_0000,
    ensures
        splitmix64_next(s) == (x + 0x9E3779B97F4A7C15) % 0x1_0000_0000_0000_0000,
{
    let w = 0x1_0000_0000_0000_0000int;
    let g = 0x9E3779B97F4A7C15int;
    lemma_fundamental_div_mod(x, w);
    let q = x / w;
    let r = s + g;
    if r < w {
        lemma_fundamental_div_mod_converse(x + g, w, q, r);
    } else {
        lemma_fundamental_div_mod_converse(x + g, w, q + 1, r - w);
    }
}

proof fn lemma_stepped(seed: u64, n: nat)
    ensures
        RandomChallenger::stepped(seed, n) == (seed + 2 * n * 0x9E3779B97F4A7C15)
            % 0x1_0000_0000_0000_0000,
    decreases n,
{
    if n > 0 {
        let g = 0x9E3779B97F4A7C15int;
        lemma_stepped(seed, (n - 1) as nat);
        let s = RandomChallenger::stepped(seed, (n - 1) as nat);
        lemma_next(seed + 2 * (n - 1) * g, s);
        lemma_next(seed + 2 * (n - 1) * g + g, splitmix64_next(s));
        assert(seed + 2 * (n - 1) * g + g + g == seed + 2 * n * g);
    } else {
        lemma_small_mod(seed as nat, 0x1_0000_0000_0000_0000);
    }
}

proof fn lemma_word_is_finalized(x: u64)
    ensures
        splitmix64_word(x) == finalized(x),
{
    lemma2_to64();
    lemma_u64_shr_is_div(x, 30);
    let a = product64(x ^ (x / 0x4000_0000), 0xBF58476D1CE4E5B9);
    lemma_u64_shr_is_div(a, 27);
    let b = product64(a ^ (a / 0x800_0000), 0x94D049BB133111EB);
    lemma_u64_shr_is_div(b, 31);
}

} // verus!
