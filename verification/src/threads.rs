//! How work is spread over threads.

use vstd::prelude::*;

verus! {

/// How many threads the thread pool has.
///
/// Calls `rayon::current_num_threads`. The number depends on the machine and on how the pool was
/// set up, so nothing is claimed of it.
#[verifier::external_body]
pub(crate) fn current_num_threads() -> (r: usize) {
    rayon::current_num_threads()
}

/// A quarter of the threads, but at least 2 and at most 8.
pub open spec fn writers_for(num_threads: int) -> int {
    let quarter = num_threads / 4;
    if quarter < 2 {
        2
    } else if quarter > 8 {
        8
    } else {
        quarter
    }
}

/// How many threads write spill runs, for so many threads in the pool.
pub fn spill_writers(num_threads: usize) -> (r: usize)
    ensures
        r == writers_for(num_threads as int),
{
    let quarter: usize = num_threads / 4;
    if quarter < 2 {
        2
    } else if quarter > 8 {
        8
    } else {
        quarter
    }
}

/// How many threads write spill runs.
pub fn spill_writer_threads() -> (r: usize)
    ensures
        2 <= r <= 8,
{
    spill_writers(current_num_threads())
}

/// As many chunks as asked for, or one for each thread; at least one.
pub open spec fn chunks_in_batch(requested: Option<usize>, num_threads: usize) -> usize {
    match requested {
        Some(n) => if n == 0 {
            1
        } else {
            n
        },
        None => if num_threads == 0 {
            1
        } else {
            num_threads
        },
    }
}

/// How many chunks are counted before the counts are put together, for so many threads in the
/// pool: as asked for, or one for each thread; at least one.
pub fn batch_size_for(requested: Option<usize>, num_threads: usize) -> (r: usize)
    ensures
        r == chunks_in_batch(requested, num_threads),
{
    let n: usize = match requested {
        Some(n) => n,
        None => num_threads,
    };
    if n == 0 {
        1
    } else {
        n
    }
}

/// How many chunks are counted before the counts are put together.
pub fn batch_size(requested: Option<usize>) -> (r: usize)
    ensures
        r >= 1,
        requested matches Some(n) ==> n > 0 ==> r == n,
        requested == Some(0usize) ==> r == 1,
{
    batch_size_for(requested, current_num_threads())
}

/// There is a spill writer for every four threads, but never fewer than two or more than eight.
pub proof fn lemma_writer_for_four_threads(num_threads: int)
    requires
        num_threads >= 0,
    ensures
        2 <= writers_for(num_threads) <= 8,
        writers_for(num_threads) > 2 ==> 4 * writers_for(num_threads) <= num_threads,
        writers_for(num_threads) < 8 ==> num_threads < 4 * (writers_for(num_threads) + 1),
{
}

/// A batch is never empty. What is asked for is given, whatever the threads, and without a request
/// each thread has one chunk.
pub proof fn lemma_batches(n: usize, num_threads: usize)
    ensures
        chunks_in_batch(Some(n), num_threads) >= 1,
        chunks_in_batch(None, num_threads) >= 1,
        n >= 1 ==> chunks_in_batch(Some(n), num_threads) == n,
        num_threads >= 1 ==> chunks_in_batch(None, num_threads) == num_threads,
{
}

} // verus!
