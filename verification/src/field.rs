//! Binary fields: GF(2^128) in GHASH form, GF(2^8) in AES form, and the
//! embedding of the second into the first.
pub mod frobenius;
pub mod gf2_128;
pub mod gf2_8;
pub mod ghash_poly;
pub mod phi8;

pub use gf2_128::{F128, F256Unreduced};
pub use gf2_8::F8;
