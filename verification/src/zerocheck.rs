//! Evaluation points of the protocol's claims and the weights that go with them.
use vstd::arithmetic::power2::{lemma2_to64, lemma_pow2_pos, pow2};
use vstd::prelude::*;
use crate::index::pow2_usize;

pub mod laws;
pub mod multilinear;

verus! {

/// How a witness is padded: every block of `2^k_log` bits carries
/// `useful_bits` bits, and is zero beyond them.
#[derive(Clone, Copy, Debug, PartialEq, Eq)]
pub struct PaddingSpec {
    pub k_log: usize,
    pub useful_bits: usize,
}

/// No padding: one block, useful to its end.
pub open spec fn dense_padding(m: usize) -> PaddingSpec {
    PaddingSpec { k_log: m, useful_bits: pow2(m as nat) as usize }
}

/// Without padding every element carries useful bits.
pub proof fn lemma_dense_is_live(m: usize)
    requires
        m >= 7,
        pow2(m as nat) <= usize::MAX,
    ensures
        forall|j: int| #[trigger] dense_padding(m).live(j),
{
    lemma2_to64();
    lemma_pow2_pos((m - 7) as nat);
    vstd::arithmetic::power2::lemma_pow2_adds(7, (m - 7) as nat);
    assert forall|j: int| #[trigger] dense_padding(m).live(j) by {
        vstd::arithmetic::div_mod::lemma_mod_bound(j, pow2((m - 7) as nat) as int);
    }
}

impl PaddingSpec {
    /// The blocks are made of whole packed elements.
    pub open spec fn wf(&self) -> bool {
        &&& self.k_log >= 7
        &&& pow2(self.k_log as nat) <= usize::MAX
    }

    /// Whether packed element `j` carries useful bits.
    pub open spec fn live(&self, j: int) -> bool {
        128 * (j % (pow2((self.k_log - 7) as nat) as int)) < self.useful_bits
    }

    /// A witness of `2^m` bits without padding.
    pub fn dense(m: usize) -> (r: PaddingSpec)
        requires
            m >= 7,
            pow2(m as nat) <= usize::MAX,
        ensures
            r == dense_padding(m),
            r.wf(),
            forall|j: int| #[trigger] r.live(j),
    {
        proof {
            lemma_dense_is_live(m);
        }
        PaddingSpec { k_log: m, useful_bits: pow2_usize(m) }
    }

    /// No padding, whatever the size of the witness.
    pub fn all() -> (r: PaddingSpec)
        ensures
            r.wf(),
            forall|j: int| #[trigger] r.live(j),
    {
        proof {
            lemma2_to64();
        }
        Self::dense(7)
    }

    /// Whether packed element `j` carries useful bits.
    pub fn is_live(&self, j: usize) -> (r: bool)
        requires
            self.wf(),
        ensures
            r == self.live(j as int),
    {
        proof {
            lemma2_to64();
            vstd::arithmetic::power2::lemma_pow2_adds(7, (self.k_log - 7) as nat);
            lemma_pow2_pos((self.k_log - 7) as nat);
            vstd::arithmetic::div_mod::lemma_mod_bound(
                j as int,
                pow2((self.k_log - 7) as nat) as int,
            );
        }
        let per_block: usize = pow2_usize(self.k_log - 7);
        128 * (j % per_block) < self.useful_bits
    }
}

} // verus!
