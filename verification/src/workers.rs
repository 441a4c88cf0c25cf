//! How many workers a scan has.

use vstd::prelude::*;

verus! {

/// The fewest workers that a scan has by default.
pub const MIN_WORKERS: usize = 4;

/// The most workers that a scan has by default.
pub const MAX_WORKERS: usize = 32;

/// The number of processors, taken as one where it is not known.
pub open spec fn processors(parallelism: Option<usize>) -> usize {
    match parallelism {
        Some(cpus) => cpus,
        None => 1,
    }
}

/// Twice the number of processors, but neither too few nor too many.
pub open spec fn default_worker_count(parallelism: Option<usize>) -> int {
    let doubled = processors(parallelism) * 2;
    if doubled < MIN_WORKERS {
        MIN_WORKERS as int
    } else if doubled > MAX_WORKERS {
        MAX_WORKERS as int
    } else {
        doubled
    }
}

/// The number of workers for a machine with `parallelism` processors.
pub fn default_workers(parallelism: Option<usize>) -> (workers: usize)
    requires
        processors(parallelism) * 2 <= usize::MAX,
    ensures
        workers == default_worker_count(parallelism),
        MIN_WORKERS <= workers <= MAX_WORKERS,
{
    let cpus: usize = match parallelism {
        Some(cpus) => cpus,
        None => 1,
    };
    let doubled: usize = cpus * 2;
    if doubled < MIN_WORKERS {
        MIN_WORKERS
    } else if doubled > MAX_WORKERS {
        MAX_WORKERS
    } else {
        doubled
    }
}

/// What the caller asks for, or the default, and at least one.
pub open spec fn resolved_workers(max_workers: Option<usize>, default: usize) -> usize {
    let workers = match max_workers {
        Some(asked) => asked,
        None => default,
    };
    if workers < 1 {
        1
    } else {
        workers
    }
}

/// The number of workers of a scan: what the caller asks for, or the default, and at
/// least one.
pub fn resolve_workers(max_workers: Option<usize>, default: usize) -> (workers: usize)
    ensures
        workers == resolved_workers(max_workers, default),
        workers == (match max_workers {
            Some(0) => 1,
            Some(asked) => asked,
            None => if default == 0 {
                1
            } else {
                default
            },
        }),
        workers >= 1,
        max_workers is Some && max_workers->0 >= 1 ==> workers == max_workers->0,
        max_workers is Some && max_workers->0 == 0 ==> workers == 1,
        max_workers is None && default >= 1 ==> workers == default,
        max_workers is None && default == 0 ==> workers == 1,
{
    let workers: usize = match max_workers {
        Some(asked) => asked,
        None => default,
    };
    if workers < 1 {
        1
    } else {
        workers
    }
}

/// The smaller of the numbers of workers and jobs, and at least one.
pub open spec fn jobs_at_a_time(total_workers: usize, jobs: usize) -> usize {
    let least = if total_workers < jobs {
        total_workers
    } else {
        jobs
    };
    if least < 1 {
        1
    } else {
        least
    }
}

/// How many jobs are done at a time: no more than there are workers or jobs, and at
/// least one.
pub fn worker_count(total_workers: usize, jobs: usize) -> (count: usize)
    ensures
        count == jobs_at_a_time(total_workers, jobs),
        count == (if total_workers == 0 || jobs == 0 {
            1
        } else if total_workers < jobs {
            total_workers
        } else {
            jobs
        }),
        count >= 1,
        total_workers >= 1 && jobs >= 1 ==> count <= total_workers && count <= jobs && (count
            == total_workers || count == jobs),
        total_workers == 0 || jobs == 0 ==> count == 1,
{
    let least: usize = if total_workers < jobs {
        total_workers
    } else {
        jobs
    };
    if least < 1 {
        1
    } else {
        least
    }
}

/// By default a scan has two workers for each processor, but at least 4 and at most 32; a
/// machine that does not tell its processors is taken to have one.
pub proof fn law_two_workers_for_each_processor(cpus: usize)
    ensures
        2 <= cpus <= 16 ==> default_worker_count(Some(cpus)) == cpus * 2,
        cpus < 2 ==> default_worker_count(Some(cpus)) == 4,
        cpus > 16 ==> default_worker_count(Some(cpus)) == 32,
        default_worker_count(None) == 4,
        processors(Some(cpus)) == cpus,
        processors(None) == 1,
{
}

/// A caller who asks for workers has just as many, whatever the default; one who does not
/// has the default. Nobody has none.
pub proof fn law_caller_has_the_workers_asked_for(asked: usize, default: usize)
    ensures
        asked > 0 ==> resolved_workers(Some(asked), default) == asked,
        default > 0 ==> resolved_workers(None, default) == default,
        resolved_workers(Some(0), default) == 1,
        resolved_workers(None, 0) == 1,
{
}

/// No job waits while a worker is idle: either all jobs are done at a time, or every worker
/// has one.
pub proof fn law_no_job_waits_for_an_idle_worker(total_workers: usize, jobs: usize)
    ensures
        jobs_at_a_time(total_workers, jobs) >= 1,
        total_workers > 0 && jobs > 0 ==> {
            let count = jobs_at_a_time(total_workers, jobs);
            count <= total_workers && count <= jobs && (count == total_workers || count == jobs)
        },
        total_workers == 0 || jobs == 0 ==> jobs_at_a_time(total_workers, jobs) == 1,
{
}

} // verus!
