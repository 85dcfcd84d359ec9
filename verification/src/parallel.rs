//! Work that is spread over threads.

use rayon::iter::{IntoParallelIterator, ParallelIterator};
use vstd::prelude::*;

verus! {

/// Applies `f` to all items, on the threads of rayon's pool.
///
/// This is `map` followed by `collect` on rayon's parallel iterator over a vector. What is taken
/// from rayon without proof is that `f` is called on the items and on nothing else, and that the
/// result has one entry for each item, in the order of the items: what a call of `f` on that item
/// returned. Nothing is said of the order in which the calls are made, which is left to the pool,
/// nor of a machine on which the pool cannot start its threads: there the call panics.
#[verifier::external_body]
pub(crate) fn par_map<A: Send, B: Send, F: Fn(A) -> B + Send + Sync>(items: Vec<A>, f: F) -> (r: Vec<
    B,
>)
    requires
        forall|i: int| 0 <= i < items@.len() ==> call_requires(f, (#[trigger] items@[i],)),
    ensures
        r@.len() == items@.len(),
        forall|i: int| 0 <= i < items@.len() ==> call_ensures(f, (items@[i],), #[trigger] r@[i]),
{
    items.into_par_iter().map(f).collect()
}

} // verus!
