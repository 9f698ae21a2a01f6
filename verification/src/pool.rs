//! Work handed out across the pool.

use rayon::iter::{IndexedParallelIterator, IntoParallelIterator, ParallelIterator};
use vstd::prelude::*;

verus! {

/// `(0..n).map(f)` across rayon's pool, in order.
///
/// `IndexedParallelIterator::with_max_len` and `ParallelIterator::map` over `0..n`, gathered by
/// `collect`: what `f` returns for each index, in order.
#[verifier::external_body]
pub(crate) fn spread<R: Send, F: Fn(usize) -> R + Sync + Send>(n: usize, f: F) -> (r: Vec<R>)
    requires
        forall|i: usize| i < n ==> #[trigger] call_requires(f, (i,)),
    ensures
        r@.len() == n,
        forall|i: int| 0 <= i < n ==> call_ensures(f, (i as usize,), #[trigger] r@[i]),
{
    (0..n).into_par_iter().with_max_len(1).map(f).collect()
}

} // verus!
