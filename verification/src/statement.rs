//! Shared R1CS proof and claim types and the Fiat-Shamir statement binding.
use vstd::bytes::lemma_auto_spec_u64_to_from_le_bytes;
use vstd::prelude::*;
use crate::challenger::fs::FsChallenger;
use crate::challenger::script::{ascii, lemma_played_push, played, Step};
use crate::challenger::Challenger;
use crate::field::F128;
use crate::hash::blake3_hash;
use crate::lincheck::{LincheckProof, QuirkyPoint};
use crate::pcs::commit::Commitment;
use crate::pcs::open::{BatchOpeningProof, BatchOpeningProofLigerito};
use crate::r1cs::BlockR1cs;

verus! {

/// Top-level R1CS proof: a zerocheck transcript, of type `Z`, and a lincheck transcript,
/// plus the opening of the two claims on the witness. BaseFold backend.
#[derive(Clone, Debug)]
pub struct R1csProof<Z> {
    pub zerocheck: Z,
    pub lincheck: LincheckProof,
    /// Batched PCS opening covering both the `ab` and `c` z-claims via one
    /// shared BaseFold sumcheck + FRI.
    pub pcs_open: BatchOpeningProof,
}

/// Top-level R1CS proof with a recursive PCS backend, whose proof is of type `L`. Same
/// zerocheck + lincheck transcripts.
#[derive(Clone, Debug)]
pub struct R1csProofLigerito<Z, L> {
    pub zerocheck: Z,
    pub lincheck: LincheckProof,
    pub pcs_open: BatchOpeningProofLigerito<L>,
}

/// A claim of the form `ẑ(point) = value` for the witness `z`.
#[derive(Clone, Debug, PartialEq, Eq)]
pub struct ZClaim {
    pub point: QuirkyPoint,
    pub value: F128,
}

/// Two MLE evaluation claims on `z` that the PCS layer must verify.
///
/// Both `point.x_outer` parts differ; both `point.z_skip` and
/// `point.x_inner_rest` shapes match (one univariate-skip coord + multilinear
/// inner-rest), so this is "two quirky-shaped openings of `z`."
#[derive(Clone, Debug, PartialEq, Eq)]
pub struct R1csClaim {
    /// From lincheck: `ẑ(ab.point) = ab.value` — covers both `â` and `b̂` at
    /// the same point (their lincheck claims collapsed to a shared z-claim
    /// at a fresh quirky inner point).
    pub ab: ZClaim,
    /// From the zerocheck's extract_c interpolation: `ẑ(c.point) = c.value`.
    /// Bypasses lincheck because `C = I` ⇒ ĉ-claim is a direct z-claim.
    pub c: ZClaim,
}

/// `flock-r1cs-v0`.
pub open spec fn r1cs_label() -> Seq<u8> {
    seq![0x66u8, 0x6c, 0x6f, 0x63, 0x6b, 0x2d, 0x72, 0x31, 0x63, 0x73, 0x2d, 0x76, 0x30]
}

/// The transcript bound to a statement.
pub open spec fn bound<Ch: Challenger>(
    s: Ch::State,
    r1cs: BlockR1cs,
    commitment: Commitment,
) -> Ch::State {
    Ch::after_bytes(
        Ch::after_bytes(Ch::after_label(s, r1cs_label()), blake3_hash(r1cs.statement_bytes())),
        commitment.root@,
    )
}

/// Bind the Fiat-Shamir transcript to the statement: the R1CS instance digest
/// + the PCS commitment root. Call once at the top of every R1CS prove/verify
/// path, before any sub-protocol challenge is drawn. RandomChallenger ignores
/// these observations; FsChallenger uses them to defeat statement substitution.
pub fn bind_statement<Ch: Challenger>(
    challenger: &mut Ch,
    r1cs: &BlockR1cs,
    commitment: &Commitment,
)
    ensures
        final(challenger).state() == bound::<Ch>(old(challenger).state(), *r1cs, *commitment),
{
    let label: [u8; 13] = [
        0x66, 0x6c, 0x6f, 0x63, 0x6b, 0x2d, 0x72, 0x31, 0x63, 0x73, 0x2d, 0x76, 0x30,
    ];
    assert(label@ =~= r1cs_label());
    challenger.observe_label(&label);
    let digest = r1cs.statement_digest();
    challenger.observe_bytes(&digest);
    challenger.observe_bytes(&commitment.root);
}

/// The statement is bound by its label, the digest of the instance and the root of the
/// commitment, in that order.
pub proof fn lemma_statement_transcript<Ch: Challenger>(
    s: Ch::State,
    r1cs: BlockR1cs,
    commitment: Commitment,
)
    ensures
        bound::<Ch>(s, r1cs, commitment) == played::<Ch>(
            s,
            seq![
                Step::Label("flock-r1cs-v0"@),
                Step::Bytes(blake3_hash(r1cs.statement_bytes())),
                Step::Bytes(commitment.root@),
            ],
        ),
{
    reveal_strlit("flock-r1cs-v0");
    let text = "flock-r1cs-v0"@;
    assert(r1cs_label() =~= ascii(text));
    let digest = Step::Bytes(blake3_hash(r1cs.statement_bytes()));
    let root = Step::Bytes(commitment.root@);
    let none = Seq::<Step>::empty();
    let one = none.push(Step::Label(text));
    lemma_played_push::<Ch>(s, none, Step::Label(text));
    lemma_played_push::<Ch>(s, one, digest);
    lemma_played_push::<Ch>(s, one.push(digest), root);
    assert(seq![Step::Label(text), digest, root] =~= one.push(digest).push(root));
}

/// One transcript is bound to one statement: the same instance, as far as its digest tells,
/// and the same commitment.
pub proof fn lemma_bound_statements_differ(
    s: Seq<u8>,
    x: BlockR1cs,
    y: BlockR1cs,
    cx: Commitment,
    cy: Commitment,
)
    requires
        blake3_hash(x.statement_bytes()).len() == blake3_hash(y.statement_bytes()).len(),
        bound::<FsChallenger>(s, x, cx) == bound::<FsChallenger>(s, y, cy),
    ensures
        blake3_hash(x.statement_bytes()) == blake3_hash(y.statement_bytes()),
        cx.root@ == cy.root@,
{
    lemma_auto_spec_u64_to_from_le_bytes();
    let (a, b) = (bound::<FsChallenger>(s, x, cx), bound::<FsChallenger>(s, y, cy));
    let (dx, dy) = (blake3_hash(x.statement_bytes()), blake3_hash(y.statement_bytes()));
    let head = FsChallenger::after_label(s, r1cs_label()).len() as int + 9;
    let n = dx.len() as int;
    let m = head + n + 9;
    assert(a.subrange(head, head + n) =~= dx);
    assert(b.subrange(head, head + n) =~= dy);
    assert(a.subrange(m, m + 32) =~= cx.root@);
    assert(b.subrange(m, m + 32) =~= cy.root@);
}

} // verus!
