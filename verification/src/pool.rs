//! Sharing work out over a pool of worker threads.

use vstd::prelude::*;
use rayon::iter::ParallelIterator;
use rayon::slice::ParallelSlice;
use rayon::{ThreadPool, ThreadPoolBuildError, ThreadPoolBuilder};

verus! {

/// A `rayon` thread pool.
#[verifier::external_type_specification]
#[verifier::external_body]
pub struct ExThreadPool(ThreadPool);

/// The reason a `rayon` thread pool could not be built.
#[verifier::external_type_specification]
#[verifier::external_body]
pub struct ExThreadPoolBuildError(ThreadPoolBuildError);

/// A pool of `threads` worker threads, by `rayon::ThreadPoolBuilder::build`. Whether it can be built
/// is up to the machine, so nothing is claimed of the result.
#[verifier::external_body]
pub(crate) fn build_pool(threads: usize) -> Result<ThreadPool, ThreadPoolBuildError> {
    ThreadPoolBuilder::new().num_threads(threads).build()
}

/// The message of a build error, by its `to_string`. Nothing is claimed of the text.
#[verifier::external_body]
pub(crate) fn build_error_text(e: &ThreadPoolBuildError) -> String {
    e.to_string()
}

/// `p` is a pool that comes of asking for one of `threads` threads.
pub closed spec fn supplied(threads: usize, p: ThreadPool) -> bool {
    call_ensures(build_pool, (threads,), Ok(p))
}

/// Asking for a pool of `threads` threads fails with an error whose message is `why`.
pub closed spec fn unavailable(threads: usize, why: Seq<char>) -> bool {
    exists|e: ThreadPoolBuildError, s: String|
        #![trigger call_ensures(build_error_text, (&e,), s)]
        call_ensures(build_pool, (threads,), Err(e)) && call_ensures(build_error_text, (&e,), s)
            && s@ == why
}

/// A pool of `threads` worker threads, or why it cannot be had.
pub(crate) fn request_pool(threads: usize) -> (r: Result<ThreadPool, String>)
    ensures
        r matches Ok(p) ==> supplied(threads, p),
        r matches Err(why) ==> unavailable(threads, why@),
{
    let build = build_pool;
    let message = build_error_text;
    match build(threads) {
        Ok(p) => Ok(p),
        Err(e) => Err(message(&e)),
    }
}

/// Number of threads of the pool, by `rayon::ThreadPool::current_num_threads`. Nothing is claimed
/// of the number: a pool may be built without naming one.
#[verifier::external_body]
pub(crate) fn pool_size(pool: &ThreadPool) -> usize {
    pool.current_num_threads()
}

/// Number of stretches of `size` that `len` items make, the last one possibly shorter.
pub open spec fn chunk_count(len: nat, size: nat) -> nat {
    (len + size - 1) as nat / size
}

/// Stretch `i` of the items.
pub open spec fn nth_chunk<T>(items: Seq<T>, size: nat, i: int) -> Seq<T> {
    items.subrange(
        i * size,
        if (i + 1) * size <= items.len() {
            (i + 1) * size
        } else {
            items.len() as int
        },
    )
}

/// Apply `f` to every stretch of `size` items on the pool's threads, by `rayon`'s
/// `ThreadPool::install`, `par_chunks`, `map` and `collect`. Claimed is that there is one result
/// per stretch, in the order of the items, and that each is a result of `f` on its stretch.
#[verifier::external_body]
pub(crate) fn map_chunks<T: Sync, R: Send, F: Fn(&[T]) -> R + Sync>(
    pool: &ThreadPool,
    items: &[T],
    size: usize,
    f: F,
) -> (r: Vec<R>)
    requires
        size > 0,
        forall|i: int, s: &[T]|
            0 <= i < chunk_count(items@.len(), size as nat) && s@ == #[trigger] nth_chunk(
                items@,
                size as nat,
                i,
            ) ==> #[trigger] call_requires(f, (s,)),
    ensures
        r@.len() == chunk_count(items@.len(), size as nat),
        forall|i: int|
            0 <= i < r@.len() ==> exists|s: &[T]|
                s@ == nth_chunk(items@, size as nat, i) && #[trigger] call_ensures(
                    f,
                    (s,),
                    #[trigger] r@[i],
                ),
{
    pool.install(|| items.par_chunks(size).map(|c| f(c)).collect())
}

} // verus!
