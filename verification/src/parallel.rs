//! Work handed out to threads, item by item.

use rayon::iter::{
    IndexedParallelIterator, IntoParallelIterator, IntoParallelRefMutIterator, ParallelIterator,
};
use vstd::prelude::*;

verus! {

/// Work on one item at a time, in place.
pub trait Job<T>: Sync {
    /// What must hold of item `i` before.
    open spec fn ready(&self, i: int, item: T) -> bool {
        arbitrary()
    }

    /// What holds of item `i` before and after.
    open spec fn did(&self, i: int, before: T, after: T) -> bool {
        arbitrary()
    }

    fn run(&self, i: usize, item: &mut T)
        requires
            self.ready(i as int, *old(item)),
        ensures
            self.did(i as int, *old(item), *final(item)),
    ;
}

/// Runs `job` on every item, in parallel, by rayon's `par_iter_mut`, `enumerate` and `for_each`:
/// each item is handed to the job once, with its index, and nothing else touches it; the vector
/// keeps its length.
#[verifier::external_body]
fn run_in_parallel<T: Send, J: Job<T>>(items: &mut Vec<T>, job: &J)
    requires
        forall|i: int| 0 <= i < old(items)@.len() ==> job.ready(i, #[trigger] old(items)@[i]),
    ensures
        final(items)@.len() == old(items)@.len(),
        forall|i: int|
            0 <= i < old(items)@.len() ==> job.did(i, old(items)@[i], #[trigger] final(items)@[i]),
{
    items.par_iter_mut().enumerate().for_each(|(i, item)| job.run(i, item));
}

/// Runs `job` on every item, in parallel or one after the other.
pub fn run_all<T: Send, J: Job<T>>(items: &mut Vec<T>, parallel: bool, job: &J)
    requires
        forall|i: int| 0 <= i < old(items)@.len() ==> job.ready(i, #[trigger] old(items)@[i]),
    ensures
        final(items)@.len() == old(items)@.len(),
        forall|i: int|
            0 <= i < old(items)@.len() ==> job.did(i, old(items)@[i], #[trigger] final(items)@[i]),
{
    if parallel {
        run_in_parallel(items, job);
        return;
    }
    let mut i: usize = 0;
    while i < items.len()
        invariant
            i <= items@.len() == old(items)@.len(),
            forall|k: int| 0 <= k < i ==> job.did(k, old(items)@[k], #[trigger] items@[k]),
            forall|k: int| i <= k < items@.len() ==> #[trigger] items@[k] == old(items)@[k],
            forall|k: int| 0 <= k < old(items)@.len() ==> job.ready(k, #[trigger] old(items)@[k]),
        decreases items@.len() - i,
    {
        assert(job.ready(i as int, old(items)@[i as int]));
        job.run(i, &mut items[i]);
        i = i + 1;
    }
}

/// A reading of one item.
pub trait Reading<T, U>: Sync {
    /// What must hold of an item before it is read.
    open spec fn readable(&self, item: T) -> bool {
        arbitrary()
    }

    /// What an item may read as.
    open spec fn reads(&self, item: T, out: U) -> bool {
        arbitrary()
    }

    fn read(&self, item: T) -> (r: U)
        requires
            self.readable(item),
        ensures
            self.reads(item, r),
    ;
}

/// Reads every item, in parallel, by rayon's `into_par_iter`, `map` and `collect`: one reading for
/// each item, in the order of the items.
#[verifier::external_body]
pub(crate) fn read_all<T: Send, U: Send, J: Reading<T, U>>(items: Vec<T>, job: &J) -> (r: Vec<U>)
    requires
        forall|i: int| 0 <= i < items@.len() ==> job.readable(#[trigger] items@[i]),
    ensures
        r@.len() == items@.len(),
        forall|i: int| 0 <= i < items@.len() ==> job.reads(items@[i], #[trigger] r@[i]),
{
    items.into_par_iter().map(|item| job.read(item)).collect()
}

} // verus!
