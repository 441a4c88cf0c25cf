//! The division of worker threads among walks.

use crate::accounting::sum_of;
use vstd::arithmetic::div_mod::{lemma_div_is_ordered, lemma_fundamental_div_mod, lemma_mod_bound};
use vstd::prelude::*;

verus! {

/// What a job of weight `weight` counts for: a job without weight counts for one.
pub open spec fn demand(weight: u64) -> int {
    if weight < 1 {
        1
    } else {
        weight as int
    }
}

/// What all the jobs count for together.
pub open spec fn total_demand(weights: Seq<u64>) -> int
    decreases weights.len(),
{
    if weights.len() == 0 {
        0
    } else {
        total_demand(weights.drop_last()) + demand(weights.last())
    }
}

/// The threads that are left when each of `jobs` jobs has one.
pub open spec fn spare_threads(total_workers: int, jobs: int) -> int {
    if total_workers > jobs {
        total_workers - jobs
    } else {
        0
    }
}

/// The part of `spare` threads that falls to job `i` by weight, rounded down.
pub open spec fn whole_share(weights: Seq<u64>, spare: int, i: int) -> int {
    spare * demand(weights[i]) / total_demand(weights)
}

/// The rounded shares of the first `n` jobs together.
pub open spec fn whole_shares(weights: Seq<u64>, spare: int, n: int) -> int
    decreases n,
{
    if n <= 0 {
        0
    } else {
        whole_shares(weights, spare, n - 1) + whole_share(weights, spare, n - 1)
    }
}

/// The threads that rounding leaves over.
pub open spec fn leftover(weights: Seq<u64>, spare: int) -> int {
    spare - whole_shares(weights, spare, weights.len() as int)
}

/// The threads of job `i`: one, its share of the spare ones, and one more where it is
/// among the first jobs, as many as rounding leaves over.
pub open spec fn threads_of(weights: Seq<u64>, total_workers: int, i: int) -> int {
    let spare = spare_threads(total_workers, weights.len() as int);
    1 + whole_share(weights, spare, i) + if i < leftover(weights, spare) {
        1int
    } else {
        0int
    }
}

proof fn lemma_total_demand_prefix(weights: Seq<u64>, n: int)
    requires
        0 <= n <= weights.len(),
    ensures
        n <= total_demand(weights.take(n)) <= total_demand(weights),
    decreases weights.len(),
{
    if weights.len() == 0 {
    } else if n == weights.len() {
        assert(weights.take(n) =~= weights);
        assert(weights.drop_last().take(n - 1) =~= weights.drop_last());
        lemma_total_demand_prefix(weights.drop_last(), n - 1);
    } else {
        assert(weights.drop_last().take(n) =~= weights.take(n));
        lemma_total_demand_prefix(weights.drop_last(), n);
    }
}

/// Rounding loses less than one thread for each job.
proof fn lemma_shares_bound(weights: Seq<u64>, spare: int, n: int)
    requires
        0 <= n <= weights.len(),
        0 <= spare,
    ensures
        0 <= whole_shares(weights, spare, n),
        total_demand(weights) * whole_shares(weights, spare, n) <= spare * total_demand(
            weights.take(n),
        ),
        total_demand(weights) * whole_shares(weights, spare, n) >= spare * total_demand(
            weights.take(n),
        ) - n * (total_demand(weights) - 1),
    decreases n,
{
    let all = total_demand(weights);
    if n <= 0 {
        assert(all * 0 == 0 && spare * 0 == 0 && 0 * (all - 1) == 0) by (nonlinear_arith);
    } else {
        lemma_shares_bound(weights, spare, n - 1);
        lemma_total_demand_prefix(weights, n);
        let sum = whole_shares(weights, spare, n - 1);
        let prefix = total_demand(weights.take(n - 1));
        let part = demand(weights[n - 1]);
        let share = whole_share(weights, spare, n - 1);
        assert(weights.take(n).drop_last() =~= weights.take(n - 1));
        assert(total_demand(weights.take(n)) == prefix + part);
        assert(0 <= spare * part) by (nonlinear_arith)
            requires
                0 <= spare,
                0 <= part,
        ;
        lemma_fundamental_div_mod(spare * part, all);
        lemma_mod_bound(spare * part, all);
        assert(share >= 0) by (nonlinear_arith)
            requires
                share == (spare * part) / all,
                0 <= spare * part,
                all > 0,
        ;
        assert(all * (sum + share) == all * sum + all * share) by (nonlinear_arith);
        assert(spare * (prefix + part) == spare * prefix + spare * part) by (nonlinear_arith);
        assert(n * (all - 1) == (n - 1) * (all - 1) + (all - 1)) by (nonlinear_arith);
    }
}

/// The rounded shares stay within the spare threads, and leave over fewer threads than
/// there are jobs.
proof fn lemma_leftover(weights: Seq<u64>, spare: int)
    requires
        0 <= spare,
    ensures
        0 <= leftover(weights, spare) <= spare,
        weights.len() > 0 ==> leftover(weights, spare) < weights.len(),
{
    let n = weights.len() as int;
    let all = total_demand(weights);
    let sum = whole_shares(weights, spare, n);
    lemma_shares_bound(weights, spare, n);
    lemma_total_demand_prefix(weights, n);
    assert(weights.take(n) =~= weights);
    if n > 0 {
        assert(sum <= spare) by (nonlinear_arith)
            requires
                all * sum <= spare * all,
                all > 0,
        ;
        assert(spare - sum < n) by (nonlinear_arith)
            requires
                all * sum >= spare * all - n * (all - 1),
                all > 0,
                n > 0,
        ;
    }
}

/// The sum of the rounded shares grows with each job.
proof fn lemma_shares_grow(weights: Seq<u64>, spare: int, i: int, n: int)
    requires
        0 <= i < n <= weights.len(),
        0 <= spare,
    ensures
        0 <= whole_share(weights, spare, i) <= whole_shares(weights, spare, n),
    decreases n,
{
    lemma_shares_bound(weights, spare, n - 1);
    lemma_total_demand_prefix(weights, weights.len() as int);
    assert(weights.take(weights.len() as int) =~= weights);
    let all = total_demand(weights);
    assert(whole_share(weights, spare, n - 1) >= 0) by (nonlinear_arith)
        requires
            whole_share(weights, spare, n - 1) == (spare * demand(weights[n - 1])) / all,
            0 <= spare,
            1 <= demand(weights[n - 1]),
            all > 0,
    ;
    if i < n - 1 {
        lemma_shares_grow(weights, spare, i, n - 1);
    }
}

/// The jobs' weights added up, each counted as at least one; `None` where the sum does
/// not fit in a `u64`.
pub fn sum_weights(weights: &Vec<u64>) -> (sum: Option<u64>)
    ensures
        match sum {
            Some(sum) => sum == total_demand(weights@),
            None => total_demand(weights@) > u64::MAX,
        },
{
    let mut sum: u64 = 0;
    let mut i: usize = 0;
    assert(weights@.take(0) =~= Seq::<u64>::empty());
    while i < weights.len()
        invariant
            i <= weights@.len(),
            sum == total_demand(weights@.take(i as int)),
        decreases weights.len() - i,
    {
        let part: u64 = if weights[i] < 1 {
            1
        } else {
            weights[i]
        };
        assert(weights@.take(i + 1).drop_last() =~= weights@.take(i as int));
        proof {
            lemma_total_demand_prefix(weights@, i + 1);
        }
        match sum.checked_add(part) {
            Some(next) => {
                sum = next;
            },
            None => {
                return None;
            },
        }
        i = i + 1;
    }
    assert(weights@.take(weights@.len() as int) =~= weights@);
    Some(sum)
}

/// Divides `total_workers` threads among the jobs. Each job has at least one, also where
/// that makes more threads than workers.
pub fn allot_threads(weights: &Vec<u64>, total_workers: usize) -> (threads: Vec<usize>)
    requires
        total_workers > weights@.len() ==> total_demand(weights@) <= u64::MAX,
    ensures
        threads@.len() == weights@.len(),
        forall|i: int|
            0 <= i < weights@.len() ==> #[trigger] threads@[i] == threads_of(
                weights@,
                total_workers as int,
                i,
            ),
{
    let count: usize = weights.len();
    let spare: usize = total_workers.saturating_sub(count);
    let ghost ws = weights@;
    let mut threads: Vec<usize> = Vec::new();
    proof {
        lemma_total_demand_prefix(ws, count as int);
        assert(ws.take(count as int) =~= ws);
        lemma_leftover(ws, spare as int);
    }
    if spare == 0 {
        let mut i: usize = 0;
        while i < count
            invariant
                i <= count == ws.len(),
                ws == weights@,
                count > 0 ==> total_demand(ws) > 0,
                spare_threads(total_workers as int, count as int) == 0,
                leftover(ws, 0) <= 0,
                threads@.len() == i,
                forall|j: int|
                    0 <= j < i ==> #[trigger] threads@[j] == threads_of(
                        ws,
                        total_workers as int,
                        j,
                    ),
            decreases count - i,
        {
            threads.push(1);
            assert(whole_share(ws, 0, i as int) == 0) by (nonlinear_arith)
                requires
                    whole_share(ws, 0, i as int) == (0 * demand(ws[i as int])) / total_demand(ws),
                    total_demand(ws) > 0,
            ;
            i = i + 1;
        }
        return threads;
    }
    let all: u64 = match sum_weights(weights) {
        Some(sum) => sum,
        // Ruled out: the weights fit wherever a thread is to spare.
        None => 1,
    };
    let mut shares: Vec<usize> = Vec::new();
    let mut assigned: usize = 0;
    let mut i: usize = 0;
    while i < count
        invariant
            i <= count == ws.len(),
            ws == weights@,
            all == total_demand(ws),
            shares@.len() == i,
            forall|j: int| 0 <= j < i ==> #[trigger] shares@[j] == whole_share(ws, spare as int, j),
            assigned == whole_shares(ws, spare as int, i as int),
            0 <= leftover(ws, spare as int),
        decreases count - i,
    {
        let part: u64 = if weights[i] < 1 {
            1
        } else {
            weights[i]
        };
        proof {
            lemma_total_demand_prefix(ws, i + 1);
            lemma_shares_grow(ws, spare as int, i as int, i + 1);
            lemma_shares_stay(ws, spare as int, i + 1);
            assert(0 <= spare * part < 0x1_0000_0000_0000_0000 * 0x1_0000_0000_0000_0000)
                by (nonlinear_arith)
                requires
                    0 <= spare < 0x1_0000_0000_0000_0000,
                    0 <= part < 0x1_0000_0000_0000_0000,
            ;
        }
        let share: u128 = (spare as u128) * (part as u128) / (all as u128);
        assert(share == whole_share(ws, spare as int, i as int));
        shares.push(share as usize);
        assigned = assigned + share as usize;
        i = i + 1;
    }
    let over: usize = spare - assigned;
    let mut i: usize = 0;
    while i < count
        invariant
            i <= count == ws.len(),
            ws == weights@,
            spare == total_workers - count,
            spare > 0,
            over == leftover(ws, spare as int),
            over <= spare,
            shares@.len() == count,
            forall|j: int|
                0 <= j < count ==> #[trigger] shares@[j] == whole_share(ws, spare as int, j),
            threads@.len() == i,
            forall|j: int|
                0 <= j < i ==> #[trigger] threads@[j] == threads_of(ws, total_workers as int, j),
        decreases count - i,
    {
        proof {
            lemma_shares_grow(ws, spare as int, i as int, count as int);
        }
        let extra: usize = if i < over {
            1
        } else {
            0
        };
        threads.push(1 + shares[i] + extra);
        i = i + 1;
    }
    threads
}

/// The rounded shares of the first jobs stay within the spare threads.
proof fn lemma_shares_stay(weights: Seq<u64>, spare: int, n: int)
    requires
        0 <= n <= weights.len(),
        0 <= spare,
    ensures
        whole_shares(weights, spare, n) <= spare,
    decreases weights.len() - n,
{
    if n < weights.len() {
        lemma_shares_stay(weights, spare, n + 1);
        lemma_shares_grow(weights, spare, n, n + 1);
    } else {
        lemma_leftover(weights, spare);
    }
}

/// The threads of the first `n` jobs together.
pub open spec fn threads_in_use(weights: Seq<u64>, total_workers: int, n: int) -> int
    decreases n,
{
    if n <= 0 {
        0
    } else {
        threads_in_use(weights, total_workers, n - 1) + threads_of(weights, total_workers, n - 1)
    }
}

proof fn lemma_threads_in_use(weights: Seq<u64>, total_workers: int, n: int)
    requires
        0 <= n <= weights.len(),
    ensures
        ({
            let spare = spare_threads(total_workers, weights.len() as int);
            let over = leftover(weights, spare);
            threads_in_use(weights, total_workers, n) == n + whole_shares(weights, spare, n) + (
            if n < over {
                n
            } else {
                over
            })
        }),
    decreases n,
{
    lemma_leftover(weights, spare_threads(total_workers, weights.len() as int));
    if n > 0 {
        lemma_threads_in_use(weights, total_workers, n - 1);
    }
}

/// Where there is a worker for each job, no worker is idle and none is promised twice:
/// the jobs' threads add up to the workers.
pub proof fn law_every_worker_is_used(weights: Seq<u64>, total_workers: int)
    requires
        0 < weights.len() <= total_workers,
    ensures
        threads_in_use(weights, total_workers, weights.len() as int) == total_workers,
{
    lemma_threads_in_use(weights, total_workers, weights.len() as int);
    lemma_leftover(weights, spare_threads(total_workers, weights.len() as int));
}

/// Each job has at least one thread, and just one where there are no more workers than
/// jobs.
pub proof fn law_every_job_has_a_thread(weights: Seq<u64>, total_workers: int, i: int)
    requires
        0 <= i < weights.len(),
    ensures
        threads_of(weights, total_workers, i) >= 1,
        total_workers <= weights.len() ==> threads_of(weights, total_workers, i) == 1,
{
    let spare = spare_threads(total_workers, weights.len() as int);
    lemma_shares_grow(weights, spare, i, weights.len() as int);
    lemma_leftover(weights, spare);
}

/// A job that comes earlier and weighs no less has no fewer threads.
pub proof fn law_heavier_job_has_no_fewer_threads(
    weights: Seq<u64>,
    total_workers: int,
    i: int,
    j: int,
)
    requires
        0 <= i < j < weights.len(),
        weights[i] >= weights[j],
    ensures
        threads_of(weights, total_workers, i) >= threads_of(weights, total_workers, j),
{
    let spare = spare_threads(total_workers, weights.len() as int);
    lemma_total_demand_prefix(weights, weights.len() as int);
    assert(spare * demand(weights[j]) <= spare * demand(weights[i])) by (nonlinear_arith)
        requires
            0 <= spare,
            demand(weights[j]) <= demand(weights[i]),
    ;
    lemma_div_is_ordered(
        spare * demand(weights[j]),
        spare * demand(weights[i]),
        total_demand(weights),
    );
}

/// A job counts for its weight, whatever that is, and for one where it has none.
pub proof fn law_jobs_count_for_their_weights(weights: Seq<u64>)
    ensures
        forall|i: int|
            0 <= i < weights.len() ==> #[trigger] demand(weights[i]) == (if weights[i] == 0 {
                1
            } else {
                weights[i] as int
            }),
        total_demand(weights) == sum_of(
            |i: int|
                if weights[i] == 0 {
                    1
                } else {
                    weights[i] as int
                },
            weights.len() as int,
        ),
{
    lemma_total_is_sum(weights, weights.len() as int);
    assert(weights.take(weights.len() as int) =~= weights);
}

proof fn lemma_total_is_sum(weights: Seq<u64>, n: int)
    requires
        0 <= n <= weights.len(),
    ensures
        total_demand(weights.take(n)) == sum_of(
            |i: int|
                if weights[i] == 0 {
                    1
                } else {
                    weights[i] as int
                },
            n,
        ),
    decreases n,
{
    if n > 0 {
        lemma_total_is_sum(weights, n - 1);
        assert(weights.take(n).drop_last() =~= weights.take(n - 1));
    }
}

/// Spare threads follow the weights. Where there are more workers than jobs, each job has
/// one thread, and of the others a part that is less than one thread away from what its
/// weight asks for among all the weights.
pub proof fn law_spare_threads_follow_the_weights(weights: Seq<u64>, total_workers: int, i: int)
    requires
        0 <= i < weights.len() <= total_workers,
    ensures
        ({
            let all = sum_of(
                |k: int|
                    if weights[k] == 0 {
                        1
                    } else {
                        weights[k] as int
                    },
                weights.len() as int,
            );
            let weight = if weights[i] == 0 {
                1
            } else {
                weights[i] as int
            };
            let spare = total_workers - weights.len();
            let threads = threads_of(weights, total_workers, i);
            &&& (threads - 2) * all <= spare * weight
            &&& spare * weight < threads * all
        }),
{
    law_jobs_count_for_their_weights(weights);
    lemma_share_bounds(weights, total_workers, i);
}

/// A job has its rounded share, which its weight settles, and one thread or two beside it.
proof fn lemma_share_bounds(weights: Seq<u64>, total_workers: int, i: int)
    requires
        0 <= i < weights.len() <= total_workers,
    ensures
        ({
            let all = total_demand(weights);
            let spare = total_workers - weights.len();
            let asked = spare * demand(weights[i]);
            let share = whole_share(weights, spare, i);
            let threads = threads_of(weights, total_workers, i);
            &&& all > 0
            &&& share * all <= asked < (share + 1) * all
            &&& (threads - 2) * all <= asked < threads * all
            &&& (threads == share + 1 ==> (threads - 1) * all <= asked)
            &&& (threads == share + 2 ==> asked < (threads - 1) * all)
            &&& threads == share + 1 || threads == share + 2
            &&& threads == share + 2 <==> i < leftover(weights, spare)
        }),
{
    let all = total_demand(weights);
    let spare = total_workers - weights.len();
    let asked = spare * demand(weights[i]);
    let share = whole_share(weights, spare, i);
    let threads = threads_of(weights, total_workers, i);
    lemma_total_demand_prefix(weights, weights.len() as int);
    assert(weights.take(weights.len() as int) =~= weights);
    lemma_fundamental_div_mod(asked, all);
    lemma_mod_bound(asked, all);
    assert(share * all <= asked < (share + 1) * all) by (nonlinear_arith)
        requires
            asked == all * share + asked % all,
            0 <= asked % all < all,
    ;
    if threads == share + 1 {
        assert((share - 1) * all <= share * all) by (nonlinear_arith)
            requires
                all > 0,
        ;
    } else {
        assert((share + 1) * all <= (share + 2) * all) by (nonlinear_arith)
            requires
                all > 0,
        ;
    }
}

/// What rounding leaves over goes to the first jobs, one thread each: where a job has more
/// than its rounded share and its first thread, so has every job before it.
pub proof fn law_leftover_threads_go_to_the_first_jobs(
    weights: Seq<u64>,
    total_workers: int,
    i: int,
    j: int,
)
    requires
        0 <= i < j < weights.len() <= total_workers,
    ensures
        ({
            let all = sum_of(
                |k: int|
                    if weights[k] == 0 {
                        1
                    } else {
                        weights[k] as int
                    },
                weights.len() as int,
            );
            let earlier = if weights[i] == 0 {
                1
            } else {
                weights[i] as int
            };
            let later = if weights[j] == 0 {
                1
            } else {
                weights[j] as int
            };
            let spare = total_workers - weights.len();
            spare * later < (threads_of(weights, total_workers, j) - 1) * all ==> spare * earlier
                < (threads_of(weights, total_workers, i) - 1) * all
        }),
{
    law_jobs_count_for_their_weights(weights);
    lemma_share_bounds(weights, total_workers, i);
    lemma_share_bounds(weights, total_workers, j);
}

/// The threads of all jobs together are the workers.
pub proof fn law_threads_add_up_to_the_workers(weights: Seq<u64>, total_workers: int)
    requires
        0 < weights.len() <= total_workers,
    ensures
        sum_of(|i: int| threads_of(weights, total_workers, i), weights.len() as int)
            == total_workers,
{
    lemma_in_use_is_sum(weights, total_workers, weights.len() as int);
    law_every_worker_is_used(weights, total_workers);
}

proof fn lemma_in_use_is_sum(weights: Seq<u64>, total_workers: int, n: int)
    ensures
        sum_of(|i: int| threads_of(weights, total_workers, i), n) == threads_in_use(
            weights,
            total_workers,
            n,
        ),
    decreases n,
{
    if n > 0 {
        lemma_in_use_is_sum(weights, total_workers, n - 1);
    }
}

} // verus!
