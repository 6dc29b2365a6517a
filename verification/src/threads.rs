//! The thread pool.
use vstd::prelude::*;

verus! {

/// `rayon::current_num_threads`: the size of the thread pool. It only steers
/// how work is cut up; nothing is claimed of the number.
#[verifier::external_body]
pub(crate) fn current_num_threads() -> usize {
    rayon::current_num_threads()
}

} // verus!
