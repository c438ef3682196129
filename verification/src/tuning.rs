//! Limits that were measured.
use vstd::prelude::*;

verus! {

/// How many files a directory holds before it is worth cloning as a whole.
pub const DIRECTORY_CLONE_MIN_FILES: usize = 32;

pub const DIRECTORY_CLONE_MAX_WORKERS: usize = 8;

pub open spec fn least(a: int, b: int) -> int {
    if a <= b {
        a
    } else {
        b
    }
}

/// How many workers clone directories, where `available` threads can run at
/// once; one is assumed where that is not known.
pub fn directory_clone_workers(available: Option<usize>, job_count: usize) -> (workers: usize)
    ensures
        workers as int == least(
            least(
                match available {
                    Some(n) => n as int,
                    None => 1,
                },
                DIRECTORY_CLONE_MAX_WORKERS as int,
            ),
            job_count as int,
        ),
{
    match available {
        Some(n) => directory_clone_workers_for(n, job_count),
        None => directory_clone_workers_for(1, job_count),
    }
}

/// No more workers than threads, than the cap, or than jobs.
pub fn directory_clone_workers_for(available: usize, job_count: usize) -> (workers: usize)
    ensures
        workers as int == least(
            least(available as int, DIRECTORY_CLONE_MAX_WORKERS as int),
            job_count as int,
        ),
{
    let capped = if available <= DIRECTORY_CLONE_MAX_WORKERS {
        available
    } else {
        DIRECTORY_CLONE_MAX_WORKERS
    };
    if capped <= job_count {
        capped
    } else {
        job_count
    }
}

/// The least of two is one of them and not above the other.
pub proof fn least_is_not_above(a: int, b: int)
    ensures
        least(a, b) <= a,
        least(a, b) <= b,
        least(a, b) == a || least(a, b) == b,
{
}

/// At most eight workers clone directories, and a directory with 32 files is
/// worth cloning as a whole.
pub proof fn limits_are_as_measured()
    ensures
        DIRECTORY_CLONE_MAX_WORKERS == 8,
        DIRECTORY_CLONE_MIN_FILES == 32,
{
}

} // verus!
