//! Polynomial commitments to packed bit witnesses: commit to a witness, open it at
//! points of its multilinear extension, one or many at a time, and verify the openings.
pub mod basefold;
pub mod binding;
pub mod combine;
pub mod commit;
pub mod fold;
pub mod laws;
pub mod open;
pub mod pack;
pub mod residual;
pub mod ring_switch;
pub mod verify;

pub use combine::{
    compute_combined_basis_and_target, CombinedClaim, DirectEqInd, PackedDirectClaim,
};
pub use commit::{commit, Commitment, PcsParams, ProverData};
pub use open::{
    open, open_batch, open_batch_mixed, open_batch_mixed_with_precomputed_s_hat_v,
    open_batch_padded, open_batch_padded_with_precomputed_s_hat_v, BatchOpening,
    BatchOpeningProof, BatchOpeningProofLigerito, OpeningProof,
};
pub use pack::{pack_witness, unpack_witness, LOG_PACKING, PACKING_WIDTH};
pub use residual::{
    open_batch_mixed_ligerito_with_precomputed_s_hat_v, verify_opening_batch_ligerito_mixed,
};
pub use verify::{
    verify_opening, verify_opening_batch, verify_opening_batch_mixed, PackedDirectClaimRef,
    VerifyError,
};
