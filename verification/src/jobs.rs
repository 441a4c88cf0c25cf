//! The jobs of a scan of several directories: one walk each, the heaviest first.

use crate::accounting::sum_of;
use crate::grouping::{
    group_views, in_some_group, is_grouping, law_groups_are_disjoint, law_groups_hold_every_path,
};
use crate::order::{
    descending, is_stable_order, law_stable_order_exists, order_by_key_descending, precedes,
    stable_order,
};
use crate::path::ComponentView;
use crate::threads::{
    allot_threads, demand, law_every_job_has_a_thread, law_every_worker_is_used,
    law_heavier_job_has_no_fewer_threads, law_leftover_threads_go_to_the_first_jobs,
    law_spare_threads_follow_the_weights, threads_in_use, threads_of, total_demand,
};
use vstd::prelude::*;

verus! {

/// One walk, and the paths that it accounts for.
#[derive(Debug, Clone)]
pub struct GroupJob {
    /// The index of the path that the walk starts from.
    pub root: usize,
    /// The indexes of the paths that lie on the walk, the root's first.
    pub indexes: Vec<usize>,
    /// The estimated cost of the walk.
    pub weight: u64,
    /// The number of threads that do the walk.
    pub threads: usize,
}

/// The weights in the order in which the jobs are done: the heaviest first, equal ones
/// as they stood.
pub open spec fn sorted_weights(weights: Seq<u64>) -> Seq<u64> {
    stable_order(descending(weights)).map_values(|k: usize| weights[k as int])
}

/// Whether `jobs` are the jobs for the groups: one for each group, the heaviest first,
/// with the workers divided among them.
pub open spec fn is_plan(
    groups: Seq<Seq<usize>>,
    weights: Seq<u64>,
    total_workers: int,
    jobs: Seq<GroupJob>,
) -> bool {
    let order = stable_order(descending(weights));
    &&& jobs.len() == groups.len()
    &&& order.len() == groups.len()
    &&& forall|i: int|
        0 <= i < jobs.len() ==> {
            let k = order[i] as int;
            &&& (#[trigger] jobs[i]).indexes@ == groups[k]
            &&& jobs[i].root == groups[k][0]
            &&& jobs[i].weight == weights[k]
            &&& jobs[i].threads == threads_of(sorted_weights(weights), total_workers, i)
        }
}

/// Taking one weight out lowers the total by what it counts for.
proof fn lemma_demand_without(weights: Seq<u64>, p: int)
    requires
        0 <= p < weights.len(),
    ensures
        total_demand(weights) == total_demand(weights.remove(p)) + demand(weights[p]),
    decreases weights.len(),
{
    let rest = weights.drop_last();
    if p == weights.len() - 1 {
        assert(weights.remove(p) =~= rest);
    } else {
        lemma_demand_without(rest, p);
        assert(weights.remove(p).drop_last() =~= rest.remove(p));
        assert(weights.remove(p).last() == weights.last());
    }
}

/// Whether `order` lists each of the indexes below `n` once.
pub open spec fn lists_each_once(order: Seq<usize>, n: int) -> bool {
    &&& order.no_duplicates()
    &&& forall|i: int| 0 <= i < order.len() ==> #[trigger] order[i] < n
    &&& forall|k: usize| k < n ==> #[trigger] order.contains(k)
}

/// A total does not depend on the order of the weights.
proof fn lemma_demand_reordered(weights: Seq<u64>, order: Seq<usize>)
    requires
        lists_each_once(order, weights.len() as int),
        weights.len() <= usize::MAX,
    ensures
        order.len() == weights.len(),
        total_demand(order.map_values(|k: usize| weights[k as int])) == total_demand(weights),
    decreases weights.len(),
{
    let turned = order.map_values(|k: usize| weights[k as int]);
    if weights.len() == 0 {
        if order.len() > 0 {
            assert(order[0] < 0);
        }
    } else {
        let last = (weights.len() - 1) as usize;
        let rest = weights.drop_last();
        assert(order.contains(last));
        let p = order.index_of(last);
        let left = order.remove(p);
        assert(left.no_duplicates());
        assert forall|i: int| 0 <= i < left.len() implies #[trigger] left[i] < rest.len() by {
            let j = if i < p {
                i
            } else {
                i + 1
            };
            assert(left[i] == order[j]);
            assert(order[j] != order[p]);
        }
        assert forall|k: usize| k < rest.len() implies #[trigger] left.contains(k) by {
            assert(order.contains(k));
            let j = order.index_of(k);
            if j < p {
                assert(left[j] == k);
            } else {
                assert(left[j - 1] == k);
            }
        }
        lemma_demand_reordered(rest, left);
        assert(turned.remove(p) =~= left.map_values(|k: usize| rest[k as int]));
        lemma_demand_without(turned, p);
    }
}

/// A stable order lists each index once.
proof fn lemma_order_lists_each_once(keys: Seq<int>, order: Seq<usize>)
    requires
        is_stable_order(keys, order),
    ensures
        lists_each_once(order, keys.len() as int),
{
    assert forall|i: int, j: int|
        0 <= i < order.len() && 0 <= j < order.len() && i != j implies order[i] != order[j] by {
        if i < j {
            assert(precedes(keys, order[i] as int, order[j] as int));
        } else {
            assert(precedes(keys, order[j] as int, order[i] as int));
        }
    }
}

/// Turns the groups into jobs, the heaviest first, and divides `total_workers` threads
/// among them. `weights[k]` is the estimated cost of walking `groups[k]`.
pub fn plan_jobs(
    groups: &Vec<Vec<usize>>,
    weights: &Vec<u64>,
    total_workers: usize,
) -> (jobs: Vec<GroupJob>)
    requires
        weights@.len() == groups@.len(),
        forall|g: int| 0 <= g < groups@.len() ==> (#[trigger] groups@[g])@.len() > 0,
        total_workers > weights@.len() ==> total_demand(weights@) <= u64::MAX,
    ensures
        is_plan(group_views(groups@), weights@, total_workers as int, jobs@),
{
    let count: usize = groups.len();
    let order = order_by_key_descending(weights);
    proof {
        lemma_order_lists_each_once(descending(weights@), order@);
        lemma_demand_reordered(weights@, order@);
    }
    let mut sorted: Vec<u64> = Vec::new();
    let mut i: usize = 0;
    while i < count
        invariant
            i <= count == weights@.len(),
            order@.len() == count,
            forall|i: int| 0 <= i < order@.len() ==> #[trigger] order@[i] < weights@.len(),
            sorted@.len() == i,
            forall|j: int| 0 <= j < i ==> sorted@[j] == weights@[#[trigger] order@[j] as int],
        decreases count - i,
    {
        sorted.push(weights[order[i]]);
        i = i + 1;
    }
    assert(sorted@ =~= sorted_weights(weights@));
    let threads = allot_threads(&sorted, total_workers);
    let mut jobs: Vec<GroupJob> = Vec::new();
    let mut i: usize = 0;
    while i < count
        invariant
            i <= count == weights@.len(),
            count == groups@.len(),
            order@ == stable_order(descending(weights@)),
            order@.len() == count,
            forall|i: int| 0 <= i < order@.len() ==> #[trigger] order@[i] < weights@.len(),
            forall|g: int| 0 <= g < groups@.len() ==> (#[trigger] groups@[g])@.len() > 0,
            threads@.len() == count,
            forall|j: int|
                0 <= j < count ==> #[trigger] threads@[j] == threads_of(
                    sorted_weights(weights@),
                    total_workers as int,
                    j,
                ),
            jobs@.len() == i,
            forall|j: int|
                0 <= j < i ==> {
                    let k = order@[j] as int;
                    &&& (#[trigger] jobs@[j]).indexes@ == group_views(groups@)[k]
                    &&& jobs@[j].root == group_views(groups@)[k][0]
                    &&& jobs@[j].weight == weights@[k]
                    &&& jobs@[j].threads == threads_of(
                        sorted_weights(weights@),
                        total_workers as int,
                        j,
                    )
                },
        decreases count - i,
    {
        let k = order[i];
        let indexes = groups[k].clone();
        assert(indexes@ =~= groups@[k as int]@);
        jobs.push(
            GroupJob { root: indexes[0], indexes, weight: weights[k], threads: threads[i] },
        );
        i = i + 1;
    }
    jobs
}

/// The threads of the first `n` jobs together.
pub open spec fn job_threads(jobs: Seq<GroupJob>, n: int) -> int
    decreases n,
{
    if n <= 0 {
        0
    } else {
        job_threads(jobs, n - 1) + jobs[n - 1].threads
    }
}

proof fn lemma_job_threads(
    groups: Seq<Seq<usize>>,
    weights: Seq<u64>,
    total_workers: int,
    jobs: Seq<GroupJob>,
    n: int,
)
    requires
        is_plan(groups, weights, total_workers, jobs),
        0 <= n <= jobs.len(),
    ensures
        job_threads(jobs, n) == threads_in_use(sorted_weights(weights), total_workers, n),
    decreases n,
{
    if n > 0 {
        lemma_job_threads(groups, weights, total_workers, jobs, n - 1);
        assert(jobs[n - 1].threads == threads_of(sorted_weights(weights), total_workers, n - 1));
    }
}

/// A plan uses every worker: its threads add up to the workers, or to the jobs where
/// there are more jobs than workers.
pub proof fn law_plan_uses_every_worker(
    groups: Seq<Seq<usize>>,
    weights: Seq<u64>,
    total_workers: int,
    jobs: Seq<GroupJob>,
)
    requires
        is_plan(groups, weights, total_workers, jobs),
        jobs.len() > 0,
    ensures
        total_workers >= jobs.len() ==> job_threads(jobs, jobs.len() as int) == total_workers,
        total_workers < jobs.len() ==> job_threads(jobs, jobs.len() as int) == jobs.len(),
{
    let n = jobs.len() as int;
    let sorted = sorted_weights(weights);
    lemma_job_threads(groups, weights, total_workers, jobs, n);
    if total_workers >= n {
        law_every_worker_is_used(sorted, total_workers);
    } else {
        lemma_one_thread_each(sorted, total_workers, n);
    }
}

proof fn lemma_one_thread_each(weights: Seq<u64>, total_workers: int, n: int)
    requires
        0 <= n <= weights.len(),
        total_workers <= weights.len(),
    ensures
        threads_in_use(weights, total_workers, n) == n,
    decreases n,
{
    if n > 0 {
        lemma_one_thread_each(weights, total_workers, n - 1);
        law_every_job_has_a_thread(weights, total_workers, n - 1);
    }
}

/// The jobs of a plan come heaviest first, each with at least one thread and with no
/// fewer threads than a later one.
pub proof fn law_plan_puts_heavy_jobs_first(
    groups: Seq<Seq<usize>>,
    weights: Seq<u64>,
    total_workers: int,
    jobs: Seq<GroupJob>,
    i: int,
    j: int,
)
    requires
        weights.len() == groups.len() <= usize::MAX,
        is_plan(groups, weights, total_workers, jobs),
        0 <= i < j < jobs.len(),
    ensures
        jobs[i].weight >= jobs[j].weight,
        jobs[i].threads >= jobs[j].threads >= 1,
{
    let keys = descending(weights);
    let order = stable_order(keys);
    let sorted = sorted_weights(weights);
    law_stable_order_exists(keys);
    assert(precedes(keys, order[i] as int, order[j] as int));
    assert(sorted[i] == weights[order[i] as int]);
    assert(sorted[j] == weights[order[j] as int]);
    assert(jobs[i].weight == sorted[i]);
    assert(jobs[j].weight == sorted[j]);
    law_heavier_job_has_no_fewer_threads(sorted, total_workers, i, j);
    law_every_job_has_a_thread(sorted, total_workers, j);
}

/// Whether job `i` accounts for path `m`.
pub open spec fn job_holds(jobs: Seq<GroupJob>, i: int, m: usize) -> bool {
    jobs[i].indexes@.contains(m)
}

/// Each path to scan is accounted for by one job of a plan, and by one only.
pub proof fn law_plan_holds_every_path_once(
    paths: Seq<Seq<ComponentView>>,
    devices: Seq<u64>,
    groups: Seq<Seq<usize>>,
    weights: Seq<u64>,
    total_workers: int,
    jobs: Seq<GroupJob>,
    m: usize,
)
    requires
        paths.len() <= usize::MAX,
        is_grouping(paths, devices, groups),
        weights.len() == groups.len() <= usize::MAX,
        is_plan(groups, weights, total_workers, jobs),
        m < paths.len(),
    ensures
        exists|i: int| 0 <= i < jobs.len() && #[trigger] job_holds(jobs, i, m),
        forall|i: int, j: int|
            0 <= i < jobs.len() && 0 <= j < jobs.len() && #[trigger] job_holds(jobs, i, m)
                && #[trigger] job_holds(jobs, j, m) ==> i == j,
{
    let keys = descending(weights);
    let order = stable_order(keys);
    law_stable_order_exists(keys);
    lemma_order_lists_each_once(keys, order);
    law_groups_hold_every_path(paths, devices, groups);
    assert(in_some_group(groups, m));
    let g = choose|g: int| 0 <= g < groups.len() && #[trigger] groups[g].contains(m);
    assert(order.contains(g as usize));
    let p = order.index_of(g as usize);
    assert(jobs[p].indexes@ == groups[g]);
    assert(job_holds(jobs, p, m));
    assert forall|i: int, j: int|
        0 <= i < jobs.len() && 0 <= j < jobs.len() && #[trigger] job_holds(jobs, i, m)
            && #[trigger] job_holds(jobs, j, m) implies i == j by {
        assert(jobs[i].indexes@ == groups[order[i] as int]);
        assert(jobs[j].indexes@ == groups[order[j] as int]);
        law_groups_are_disjoint(paths, devices, groups, order[i] as int, order[j] as int, m);
    }
}

/// The number of workers changes nothing about a plan but the threads: the same walks are
/// done in the same order for the same paths.
pub proof fn law_workers_change_only_the_threads(
    groups: Seq<Seq<usize>>,
    weights: Seq<u64>,
    few_workers: int,
    many_workers: int,
    few: Seq<GroupJob>,
    many: Seq<GroupJob>,
)
    requires
        is_plan(groups, weights, few_workers, few),
        is_plan(groups, weights, many_workers, many),
    ensures
        few.len() == many.len(),
        forall|i: int|
            0 <= i < few.len() ==> {
                &&& (#[trigger] few[i]).root == many[i].root
                &&& few[i].indexes@ == many[i].indexes@
                &&& few[i].weight == many[i].weight
            },
{
    assert forall|i: int| 0 <= i < few.len() implies {
        &&& (#[trigger] few[i]).root == many[i].root
        &&& few[i].indexes@ == many[i].indexes@
        &&& few[i].weight == many[i].weight
    } by {
        assert(many[i].indexes@ == groups[stable_order(descending(weights))[i] as int]);
    }
}

/// A plan has one job for each group, with the group's paths, its first path as the root,
/// and its weight. The heavier job comes first, and of two equally heavy ones that whose
/// group stands first. The result lists the groups in the order of their jobs.
pub proof fn law_plan_turns_each_group_into_a_job(
    groups: Seq<Seq<usize>>,
    weights: Seq<u64>,
    total_workers: int,
    jobs: Seq<GroupJob>,
) -> (order: Seq<usize>)
    requires
        weights.len() == groups.len() <= usize::MAX,
        is_plan(groups, weights, total_workers, jobs),
    ensures
        jobs.len() == groups.len(),
        lists_each_once(order, groups.len() as int),
        order.len() == groups.len(),
        forall|i: int|
            0 <= i < jobs.len() ==> {
                &&& (#[trigger] jobs[i]).indexes@ == groups[order[i] as int]
                &&& jobs[i].root == groups[order[i] as int][0]
                &&& jobs[i].weight == weights[order[i] as int]
            },
        forall|i: int, j: int|
            0 <= i < j < jobs.len() ==> {
                ||| (#[trigger] jobs[i]).weight > (#[trigger] jobs[j]).weight
                ||| jobs[i].weight == jobs[j].weight && order[i] < order[j]
            },
{
    let keys = descending(weights);
    let order = stable_order(keys);
    law_stable_order_exists(keys);
    lemma_order_lists_each_once(keys, order);
    assert forall|i: int, j: int| 0 <= i < j < jobs.len() implies {
        ||| (#[trigger] jobs[i]).weight > (#[trigger] jobs[j]).weight
        ||| jobs[i].weight == jobs[j].weight && order[i] < order[j]
    } by {
        assert(precedes(keys, order[i] as int, order[j] as int));
    }
    order
}

/// The threads of a plan follow the weights of its jobs. Where there are no fewer workers
/// than jobs, each job has one thread, and of the others a part that is less than one
/// thread away from what its weight asks for among all the weights; what rounding leaves
/// over goes to the first jobs.
pub proof fn law_plan_threads_follow_the_weights(
    groups: Seq<Seq<usize>>,
    weights: Seq<u64>,
    total_workers: int,
    jobs: Seq<GroupJob>,
    i: int,
)
    requires
        weights.len() == groups.len() <= usize::MAX,
        is_plan(groups, weights, total_workers, jobs),
        0 <= i < jobs.len() <= total_workers,
    ensures
        ({
            let counts = |k: int|
                if jobs[k].weight == 0 {
                    1
                } else {
                    jobs[k].weight as int
                };
            let all = sum_of(counts, jobs.len() as int);
            let spare = total_workers - jobs.len();
            &&& (jobs[i].threads - 2) * all <= spare * counts(i) < jobs[i].threads * all
            &&& forall|j: int|
                i < j < jobs.len() && spare * counts(j) < ((#[trigger] jobs[j]).threads - 1) * all
                    ==> spare * counts(i) < (jobs[i].threads - 1) * all
        }),
{
    let sorted = sorted_weights(weights);
    law_stable_order_exists(descending(weights));
    let counts = |k: int|
        if jobs[k].weight == 0 {
            1
        } else {
            jobs[k].weight as int
        };
    let sorted_counts = |k: int|
        if sorted[k] == 0 {
            1
        } else {
            sorted[k] as int
        };
    let n = jobs.len() as int;
    assert forall|k: int| 0 <= k < n implies (#[trigger] jobs[k]).weight == sorted[k] by {}
    lemma_same_sum(counts, sorted_counts, n);
    assert(jobs[i].threads == threads_of(sorted, total_workers, i));
    law_spare_threads_follow_the_weights(sorted, total_workers, i);
    assert forall|j: int|
        i < j < jobs.len() && (total_workers - n) * counts(j) < ((
        #[trigger] jobs[j]).threads - 1) * sum_of(counts, n) implies (total_workers - n) * counts(i)
        < (jobs[i].threads - 1) * sum_of(counts, n) by {
        assert(jobs[j].threads == threads_of(sorted, total_workers, j));
        law_leftover_threads_go_to_the_first_jobs(sorted, total_workers, i, j);
    }
}

proof fn lemma_same_sum(left: spec_fn(int) -> int, right: spec_fn(int) -> int, n: int)
    requires
        forall|k: int| 0 <= k < n ==> #[trigger] left(k) == right(k),
    ensures
        sum_of(left, n) == sum_of(right, n),
    decreases n,
{
    if n > 0 {
        lemma_same_sum(left, right, n - 1);
        assert(left(n - 1) == right(n - 1));
    }
}

} // verus!
