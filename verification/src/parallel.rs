//! Work that is handed out to threads item by item.

use rayon::iter::{IntoParallelRefIterator, ParallelIterator};
use vstd::prelude::*;

verus! {

/// `par_iter`, `map` and `collect` of `rayon`: calls a function on every item of a list, on as
/// many threads as there are, and lists the results in the order of the items. What is claimed
/// is that the list has one result for each item, which is a result of the function on that
/// item. The function has to accept every item. Nothing is claimed of the order of the calls.
/// Where the threads of the pool cannot be started, `rayon` panics.
#[verifier::external_body]
pub(crate) fn map_in_parallel<T: Sync, R: Send, F: Fn(&T) -> R + Sync + Send>(
    items: &Vec<T>,
    f: F,
) -> (results: Vec<R>)
    requires
        forall|k: int| 0 <= k < items.len() ==> call_requires(f, (&#[trigger] items[k],)),
    ensures
        results.len() == items.len(),
        forall|k: int|
            0 <= k < items.len() ==> call_ensures(f, (&items[k],), #[trigger] results[k]),
{
    items.par_iter().map(f).collect()
}

} // verus!
