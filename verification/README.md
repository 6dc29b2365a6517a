# flock_core

The core of a proving system for block-structured R1CS over GF(2), written in Verus: the
executable code stands together with its contracts and proofs.

An instance is a block-diagonal system `(A z) ∘ (B z) = C z` over bits, given by the base
matrices of one block. The library holds what a prover and a verifier of such statements
share:

| module | what it does |
| --- | --- |
| `field` | GF(2^128) in GHASH form, GF(2^8) in AES form, the embedding of one in the other |
| `ntt` | additive transforms over both fields in the novel polynomial basis |
| `hash`, `challenger` | SHA-256 and BLAKE3, the Fiat-Shamir transcript and its proof of work |
| `merkle` | trees over field elements, and one proof for many positions |
| `r1cs`, `statement` | instances, their satisfaction on bits and on packed words, their digest |
| `zerocheck` | multilinear tables, Lagrange weights, the padding of a witness |
| `lincheck` | the reduction of the two matrix claims to one claim on the witness |
| `pcs` | packing, commitment, ring switching, BaseFold openings, one or many at a time |
| `permutation` | a permutation check by a grand product, opened with BaseFold or left to a recursive backend by its size |
| `scratch`, `threads`, `bits`, `index`, `algebra` | buffers, and the small pieces |

Each executable function states what it returns over the mathematical models that stand
beside it. What relates several functions is a public proof function in a file named `laws`
next to them: that transforms undo each other, that an honest proof is accepted, that an
encoding is injective.

A recursive backend for openings is the caller's: the library makes the claim that the
backend is to prove, reduces a proof to the claim that it is to verify, and turns its answer
into that of the opening (`pcs/residual.rs`).

What is trusted and not proved: the contracts of the hash functions in `hash.rs`, the number
of threads in `threads.rs` and the capacity of a vector in `scratch.rs`.

`app/` is the plain Rust around the library: proofs in a form that serde can carry, and a
pool of buffers for a whole process. `tests/` run the library on concrete values.
