//! Transcripts as lists of what is written and read.
//!
//! A protocol's transcript is the list of the labels and messages that are observed and of
//! the challenges that are sampled, in order. Which list a protocol follows is what its
//! prover and its verifier have to agree on, and what every challenge depends on.
use vstd::prelude::*;
use crate::challenger::Challenger;
use crate::field::F128;

verus! {

/// One operation on a challenger.
pub enum Step {
    Label(Seq<char>),
    Element(F128),
    Elements(Seq<F128>),
    Bytes(Seq<u8>),
    Sample,
    SampleVec(nat),
}

/// The bytes of an ASCII text.
pub open spec fn ascii(text: Seq<char>) -> Seq<u8> {
    Seq::new(text.len(), |i: int| text[i] as u8)
}

/// The state after one operation.
pub open spec fn after_step<Ch: Challenger>(s: Ch::State, step: Step) -> Ch::State {
    match step {
        Step::Label(text) => Ch::after_label(s, ascii(text)),
        Step::Element(x) => Ch::after_f128(s, x),
        Step::Elements(xs) => Ch::after_f128_slice(s, xs),
        Step::Bytes(bytes) => Ch::after_bytes(s, bytes),
        Step::Sample => Ch::after_sample(s),
        Step::SampleVec(n) => Ch::after_sample_vec(s, n),
    }
}

/// The state after the operations, in order.
pub open spec fn played<Ch: Challenger>(s: Ch::State, script: Seq<Step>) -> Ch::State
    decreases script.len(),
{
    if script.len() == 0 {
        s
    } else {
        after_step::<Ch>(played::<Ch>(s, script.drop_last()), script.last())
    }
}

/// The challenge that is sampled after the operations.
pub open spec fn drawn<Ch: Challenger>(s: Ch::State, script: Seq<Step>) -> F128 {
    Ch::challenge(played::<Ch>(s, script))
}

/// `n` challenges, one after the other.
pub open spec fn draws(n: nat) -> Seq<Step> {
    Seq::new(n, |i: int| Step::Sample)
}

/// One more operation.
pub proof fn lemma_played_push<Ch: Challenger>(s: Ch::State, script: Seq<Step>, step: Step)
    ensures
        played::<Ch>(s, script.push(step)) == after_step::<Ch>(played::<Ch>(s, script), step),
{
    assert(script.push(step).drop_last() =~= script);
}

/// One script after another.
pub proof fn lemma_played_concat<Ch: Challenger>(s: Ch::State, x: Seq<Step>, y: Seq<Step>)
    ensures
        played::<Ch>(s, x + y) == played::<Ch>(played::<Ch>(s, x), y),
    decreases y.len(),
{
    if y.len() == 0 {
        assert(x + y =~= x);
    } else {
        assert((x + y).drop_last() =~= x + y.drop_last());
        lemma_played_concat::<Ch>(s, x, y.drop_last());
    }
}

} // verus!
