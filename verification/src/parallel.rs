//! Work spread over threads.

use rayon::iter::{IntoParallelIterator, ParallelIterator};
use vstd::prelude::*;

verus! {

/// Calls `f` on each index below `n`, on the threads of the pool, by rayon's
/// `into_par_iter().map(f).collect()` on a range. What is claimed of it: the results come back
/// in the order of the indices, one for each, and each is one that `f` can return on its index.
#[verifier::external_body]
pub(crate) fn map_indices<R: Send, F: Fn(usize) -> R + Sync + Send>(n: usize, f: F) -> (out: Vec<R>)
    requires
        forall|i: usize| i < n ==> #[trigger] f.requires((i,)),
    ensures
        out@.len() == n,
        forall|i: usize| i < n ==> f.ensures((i,), #[trigger] out@[i as int]),
{
    (0..n).into_par_iter().map(f).collect()
}

} // verus!
