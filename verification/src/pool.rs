//! Size of the worker pool that runs the ignore checks.

use vstd::prelude::*;

verus! {

/// Largest number of ignore checks that run at the same time by default.
///
/// Found by experiment; more concurrent processes than this made the run slower.
pub const MAX_CONCURRENT_THREADS: usize = 9;

/// The smallest of three numbers.
pub open spec fn min3(a: int, b: int, c: int) -> int {
    if a <= b && a <= c {
        a
    } else if b <= c {
        b
    } else {
        c
    }
}

/// The number of cores to plan with: the detected number, or one where the
/// machine could not tell.
pub open spec fn effective_cores(detected: Option<usize>) -> int {
    match detected {
        Some(cores) => cores as int,
        None => 1,
    }
}

/// The pool size for `batch_count` batches on a machine with `cores` parallel
/// execution units: the smallest of `upper_bound`, `batch_count` and `cores`,
/// but never less than one.
pub open spec fn pool_size_spec(upper_bound: int, batch_count: int, cores: int) -> int {
    let smallest = min3(upper_bound, batch_count, cores);
    if smallest < 1 {
        1
    } else {
        smallest
    }
}

/// Number of workers for `batch_count` batches, with at most `upper_bound`
/// workers.
///
/// `detected` is what the machine reported as its available parallelism, `None`
/// where it could not be determined; the pool then has a single worker.
pub fn pool_size(upper_bound: usize, batch_count: usize, detected: Option<usize>) -> (size: usize)
    ensures
        size == pool_size_spec(upper_bound as int, batch_count as int, effective_cores(detected)),
        size >= 1,
        detected is None ==> size == 1,
{
    let cores: usize = match detected {
        Some(cores) => cores,
        None => 1,
    };
    let mut size: usize = upper_bound;
    if batch_count < size {
        size = batch_count;
    }
    if cores < size {
        size = cores;
    }
    if size < 1 {
        size = 1;
    }
    size
}

/// Number of workers for `job_amount` batches under the default upper bound.
pub fn calculate_ideal_parallelism(job_amount: usize, detected: Option<usize>) -> (size: usize)
    ensures
        size == pool_size_spec(
            MAX_CONCURRENT_THREADS as int,
            job_amount as int,
            effective_cores(detected),
        ),
        1 <= size <= MAX_CONCURRENT_THREADS,
        detected is None ==> size == 1,
{
    pool_size(MAX_CONCURRENT_THREADS, job_amount, detected)
}

} // verus!
