//! Lincheck PIOP for **block-diagonal** R1CS over GF(2).
//!
//! Reduces two MLE evaluation claims (`â(x)=v_a`, `b̂(x)=v_b` at one shared
//! point) plus the linear constraints (`a = Az`, `b = Bz`) to one MLE
//! evaluation claim on `z`, with a fresh random inner coord.
//!
//! ## Matrix structure (the assumption we exploit)
//!
//! `A = I_{2^n_log} ⊗ A_0` (block-diagonal with `A_0` repeated `2^n_log`
//! times along the diagonal). Same for B. Storage is `O(k²)` for the
//! small base matrices, not `O(N²)`.
//!
//! With the row/col index decomposed as `(i_inner, i_outer)` with `k_log`
//! inner bits and `n_log` outer bits (`m = k_log + n_log`), the outer
//! summation of a claim collapses by the eq-MLE identity:
//!
//!   `v  =  Σ_{i_inner}  Â_0(i_inner, x_inner) · ẑ(i_inner, x_outer)`
//!
//! — a sum over only `2^k_log` terms, with `ẑ(·, x_outer)` being the
//! partial fold of `z` at the outer half of the claim point.
//!
//! ## Protocol shape (circuit R1CS: C = I, A & B share a claim point)
//!
//! 1. The verifier samples `α` (and `β` for a pinned constant wire); the two
//!    claims are batched into one product sum
//!    `Σ_i comb[i]·z_vec[i] = α·v_a + v_b (+ β)`.
//! 2. A product sumcheck binds the high `k_log − k_skip` inner variables.
//! 3. The prover sends the collapsed vector `z_partial` of length `2^k_skip`;
//!    the verifier checks it against the running claim.
//! 4. A fresh univariate-skip challenge turns `z_partial` into one z-claim.
//!
//! ## Quirky (univariate-skip) claim points
//!
//! Claim points use the [`QuirkyPoint`] representation:
//!
//!   `x = (z_skip ∈ F_{2^128},  x_inner_rest ∈ F_{2^128}^{k_log − k_skip},  x_outer ∈ F_{2^128}^{n_log})`
//!
//! - `z_skip` is the univariate-skip challenge; it represents all `k_skip`
//!   skip variables collapsed via the polynomial extension with Lagrange
//!   basis on `φ_8(0), …, φ_8(2^{k_skip} − 1)`.
//! - The remaining `k_log − k_skip` inner coords plus the `n_log` outer
//!   coords are standard multilinear.
//!
//! ## Conventions
//!
//! - **Eq table layout.** `eq_table[i]` where `i = Σ b_j · 2^j` is
//!   `Π_j eq(point[j], b_j) = Π_j (1 + point[j] + b_j)`.
//! - **`z_packed` byte layout.** Writing `i_outer = 8·byte_idx + r`
//!   with `r ∈ {0,..,7}` and `byte_idx ∈ {0,..,n_outer/8 − 1}`, the bit
//!   `z[i_inner, i_outer]` lives at byte position `byte_idx · k + i_inner`,
//!   bit-within-byte `r`. This layout makes the partial-fold column scan
//!   sequential — for each `byte_idx`, all `k` per-i_inner bytes are at
//!   consecutive byte positions, so a 256-entry sum table for the 8 outer
//!   values is built once per `byte_idx` and applied across all `i_inner`.
pub mod binding;
pub mod circuit;
pub mod fold;
pub mod laws;
pub mod protocol;
pub mod sumcheck;
pub mod tiled;

pub use crate::zerocheck::multilinear::build_eq_table;
pub use circuit::{CscCircuit, LincheckCircuit, SparseMatrixCircuit};
pub use fold::{
    build_quirky_eq_table, pack_z_lincheck, pack_z_lincheck_from_packed, partial_fold_packed_z,
    partial_fold_packed_z_fast, partial_fold_packed_z_fast_padded, sparse_row_fold,
};
pub use protocol::{
    prove, prove_padded, prove_padded_capture_z_vec, verify, LincheckClaim, LincheckProof,
    QuirkyPoint, VerifyError,
};
pub use tiled::{
    partial_fold_packed_z_neon_iblock_padded, partial_fold_packed_z_neon_single,
    partial_fold_packed_z_neon_single_padded,
};
