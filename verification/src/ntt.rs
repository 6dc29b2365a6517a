//! Additive number-theoretic transforms over GF(2^8) and GF(2^128).
pub mod additive_ntt_f128;
pub mod additive_ntt_gf8;
pub mod inv_table_deg4;
pub mod laws_deg4;
pub mod laws_f128;
pub mod laws_gf8;
pub mod layers;
pub mod novel_basis;
pub mod paired;

pub use additive_ntt_f128::AdditiveNttF128;
pub use additive_ntt_gf8::{compute_twiddles, AdditiveNttGf8};
pub use inv_table_deg4::InvNttTableSToV8Gf8;
