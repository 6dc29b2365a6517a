pub mod algebra;
pub mod bits;
pub mod challenger;
pub mod field;
pub mod hash;
pub mod index;
pub mod lincheck;
pub mod merkle;
pub mod ntt;
pub mod pcs;
pub mod permutation;
pub mod r1cs;
pub mod scratch;
pub mod statement;
pub mod threads;
pub mod zerocheck;
