//! What a scan of several paths comes to as a whole: the grouping, the plan, the walks and
//! the table together.

use crate::accounting::{dir_run, is_dir, is_linked_file, sizes_agree};
use crate::dir_scan::{dir_start, dir_totals, ScanTotals};
use crate::entry::{EventView, FileMeta};
use crate::group_scan::{group_start, group_totals};
use crate::grouping::{
    covers, depths, is_grouping, is_root, law_groups_hold_every_path, shortest_first,
};
use crate::jobs::{
    is_plan, job_holds, law_plan_holds_every_path_once, lists_each_once, GroupJob,
};
use crate::order::{descending, law_stable_order_exists, precedes, stable_order};
use crate::parts::{counters_fit, law_part_counts_no_more_than_the_whole, no_larger};
use crate::path::{contains_path, ComponentView};
use crate::results::{
    in_table, job_rows, law_row_shows_the_result_of_its_job, lemma_recorded_jobs_len, recorded_jobs,
    RowView,
};
use crate::sharing::{
    concerns, directories_agree, directories_apart, group_run,
    law_order_of_shared_reports_is_irrelevant, law_shared_walk_counts_devices_like_own_walk,
    law_shared_walk_counts_like_own_walk, lemma_group_run_keeps, lemma_reports_nest, reports_for,
};
use vstd::prelude::*;

verus! {

/// A scan of several paths, from what it is asked for to what was recorded.
pub struct WholeScan {
    /// The paths to scan, resolved, with the devices that they lie on.
    pub paths: Seq<Seq<ComponentView>>,
    pub devices: Seq<u64>,
    /// The paths as the caller wrote them.
    pub names: Seq<Seq<char>>,
    pub groups: Seq<Seq<usize>>,
    pub weights: Seq<u64>,
    pub total_workers: int,
    pub jobs: Seq<GroupJob>,
    /// For each job, the reports of its walk in the order in which they came.
    pub events: Seq<Seq<EventView>>,
    /// The jobs in the order in which they were recorded.
    pub turns: Seq<usize>,
}

/// What a walk reports, by the path that it starts from and the device of that path.
pub type Reports = spec_fn(Seq<ComponentView>, u64) -> Seq<EventView>;

/// Whether no directory is reported twice.
pub open spec fn directories_distinct(events: Seq<EventView>) -> bool {
    forall|i: int, j: int, left: FileMeta, right: FileMeta|
        0 <= i < j < events.len() && #[trigger] is_dir(events[i], left) && #[trigger] is_dir(
            events[j],
            right,
        ) ==> left.key() != right.key()
}

/// Whether the reports of a walk fit together: those of one file agree on its size, and no
/// directory is reached by two paths.
pub open spec fn is_steady(device: u64, events: Seq<EventView>) -> bool {
    sizes_agree(Some(device), events) && directories_distinct(events)
}

/// The totals of a scan of `path` alone, fed with those of the reports that concern it: the
/// ones under the path, and the ones without a path.
pub open spec fn own_totals(
    path: Seq<ComponentView>,
    device: u64,
    events: Seq<EventView>,
) -> ScanTotals {
    dir_totals(dir_run(dir_start(Some(device)), reports_for(seq![path], 0, events)))
}

impl WholeScan {
    /// The reports of job `i`'s walk, in an order that does not depend on the workers.
    pub open spec fn walk_of(self, reports: Reports, i: int) -> Seq<EventView> {
        let root = self.jobs[i].root as int;
        reports(self.paths[root], self.devices[root])
    }

    /// What the walk of job `i` found.
    pub open spec fn totals_of(self, i: int) -> Seq<ScanTotals> {
        let job = self.jobs[i];
        let targets = job.indexes@.map_values(|m: usize| self.paths[m as int]);
        group_totals(
            group_run(group_start(self.devices[job.root as int], targets), self.events[i]),
        )
    }

    /// The table when every job has been recorded.
    pub open spec fn rows(self) -> Seq<Option<RowView>> {
        recorded_jobs(
            Seq::new(self.paths.len(), |m: int| None),
            self.turns.map_values(|i: usize| self.jobs[i as int]),
            self.turns.map_values(|i: usize| self.totals_of(i as int)),
            self.names,
            self.turns.len() as int,
        )
    }

    /// What the caller is told, in order: the results of the first `n` jobs to be recorded,
    /// each job's one after the other.
    pub open spec fn told_of(self, n: int) -> Seq<(usize, RowView)>
        decreases n,
    {
        if n <= 0 {
            Seq::empty()
        } else {
            let i = self.turns[n - 1] as int;
            self.told_of(n - 1) + job_rows(self.jobs[i].indexes@, self.totals_of(i), self.names)
        }
    }

    /// What the caller is told, in order, where it takes every result.
    pub open spec fn told(self) -> Seq<(usize, RowView)> {
        self.told_of(self.turns.len() as int)
    }

    /// Whether the scan was planned as the library does it, and each job was recorded once.
    pub open spec fn is_planned(self) -> bool {
        &&& self.paths.len() <= usize::MAX
        &&& self.devices.len() == self.paths.len()
        &&& self.names.len() == self.paths.len()
        &&& is_grouping(self.paths, self.devices, self.groups)
        &&& self.groups.len() <= usize::MAX
        &&& self.weights.len() == self.groups.len()
        &&& is_plan(self.groups, self.weights, self.total_workers, self.jobs)
        &&& lists_each_once(self.turns, self.jobs.len() as int)
    }

    /// Whether the scan was planned and done as the library does it, on a file system on
    /// which walks report `reports`, in whatever order.
    pub open spec fn is_done(self, reports: Reports) -> bool {
        &&& self.is_planned()
        &&& self.events.len() == self.jobs.len()
        &&& forall|i: int|
            0 <= i < self.jobs.len() ==> {
                let root = (#[trigger] self.jobs[i]).root as int;
                &&& self.events[i].to_multiset() == self.walk_of(reports, i).to_multiset()
                &&& is_steady(self.devices[root], self.walk_of(reports, i))
            }
    }
}

/// The same reports concern a path, whichever targets it stands among.
proof fn lemma_reports_of_path(
    targets: Seq<Seq<ComponentView>>,
    k: int,
    events: Seq<EventView>,
)
    ensures
        reports_for(targets, k, events) == reports_for(seq![targets[k]], 0, events),
{
    let left = |e: EventView| concerns(targets, k, e);
    let right = |e: EventView| concerns(seq![targets[k]], 0, e);
    assert forall|e: EventView| #[trigger] left(e) == right(e) by {}
    assert(left =~= right);
}

/// Reports without a directory twice satisfy what the laws of a shared walk ask for.
proof fn lemma_distinct(targets: Seq<Seq<ComponentView>>, k: int, events: Seq<EventView>)
    requires
        directories_distinct(events),
    ensures
        directories_agree(targets, events),
        directories_apart(targets, k, events),
{
    assert forall|i: int, j: int, left: FileMeta, right: FileMeta|
        0 <= i < events.len() && 0 <= j < events.len() && #[trigger] is_dir(events[i], left)
            && #[trigger] is_dir(events[j], right) && left.key() == right.key() implies i
        == j by {
        if i < j {
            assert(is_dir(events[i], left) && is_dir(events[j], right));
        } else if j < i {
            assert(is_dir(events[j], right) && is_dir(events[i], left));
        }
    }
}

/// A shared walk finds for each target what a scan of the target's own finds among the
/// reports.
proof fn lemma_walk_totals(
    device: u64,
    targets: Seq<Seq<ComponentView>>,
    k: int,
    events: Seq<EventView>,
    steady: Seq<EventView>,
)
    requires
        targets.len() <= usize::MAX,
        0 <= k < targets.len(),
        events.to_multiset() == steady.to_multiset(),
        is_steady(device, steady),
    ensures
        group_totals(group_run(group_start(device, targets), events))[k] == own_totals(
            targets[k],
            device,
            steady,
        ),
{
    let start = group_start(device, targets);
    lemma_distinct(targets, k, steady);
    law_order_of_shared_reports_is_irrelevant(start, steady, events);
    law_shared_walk_counts_like_own_walk(device, targets, k, steady);
    law_shared_walk_counts_devices_like_own_walk(device, targets, k, steady);
    lemma_reports_of_path(targets, k, steady);
    lemma_group_run_keeps(start, events);
}

/// Whether each job's paths are among the paths to scan.
spec fn jobs_in_table(jobs: Seq<GroupJob>, count: int) -> bool {
    forall|j: int| 0 <= j < jobs.len() ==> in_table((#[trigger] jobs[j]).indexes@, count)
}

proof fn lemma_in_table(scan: WholeScan)
    requires
        scan.is_planned(),
    ensures
        jobs_in_table(
            scan.turns.map_values(|i: usize| scan.jobs[i as int]),
            scan.paths.len() as int,
        ),
{
    let order = stable_order(descending(scan.weights));
    let done = scan.turns.map_values(|i: usize| scan.jobs[i as int]);
    law_stable_order_exists(descending(scan.weights));
    assert forall|j: int| 0 <= j < done.len() implies in_table(
        (#[trigger] done[j]).indexes@,
        scan.paths.len() as int,
    ) by {
        let i = scan.turns[j] as int;
        let g = order[i] as int;
        assert(scan.jobs[i].indexes@ == scan.groups[g]);
        assert forall|p: int| 0 <= p < scan.groups[g].len() implies #[trigger] scan.groups[g][p]
            < scan.paths.len() by {
            assert(scan.groups[g].contains(scan.groups[g][p]));
        }
    }
}

proof fn lemma_rows_len(scan: WholeScan)
    requires
        scan.is_planned(),
    ensures
        scan.rows().len() == scan.paths.len(),
{
    lemma_in_table(scan);
    lemma_recorded_jobs_len(
        Seq::new(scan.paths.len(), |m: int| None),
        scan.turns.map_values(|i: usize| scan.jobs[i as int]),
        scan.turns.map_values(|i: usize| scan.totals_of(i as int)),
        scan.names,
        scan.turns.len() as int,
    );
}

/// The place of path `m`: the turn in which its job is recorded, and its position there.
/// No other turn records it, and its row shows what that job found.
proof fn lemma_place(scan: WholeScan, m: usize) -> (place: (int, int))
    requires
        scan.is_planned(),
        m < scan.paths.len(),
    ensures
        0 <= place.0 < scan.turns.len(),
        scan.turns[place.0] < scan.jobs.len(),
        ({
            let i = scan.turns[place.0] as int;
            let indexes = scan.jobs[i].indexes@;
            &&& 0 <= place.1 < indexes.len()
            &&& indexes[place.1] == m
            &&& indexes.no_duplicates()
            &&& shortest_first(scan.paths, indexes)
            &&& scan.jobs[i].root < scan.paths.len()
            &&& is_root(scan.paths, scan.devices, scan.jobs[i].root as int)
            &&& forall|k: usize|
                #[trigger] indexes.contains(k) <==> k < scan.paths.len() && covers(
                    scan.paths,
                    scan.devices,
                    scan.jobs[i].root as int,
                    k as int,
                )
            &&& scan.rows()[m as int] == Some(
                RowView { path: scan.names[m as int], totals: scan.totals_of(i)[place.1] },
            )
        }),
        forall|t: int|
            0 <= t < scan.turns.len() && scan.jobs[(#[trigger] scan.turns[t]) as int].indexes@.contains(
                m,
            ) ==> t == place.0,
{
    let order = stable_order(descending(scan.weights));
    law_stable_order_exists(descending(scan.weights));
    law_groups_hold_every_path(scan.paths, scan.devices, scan.groups);
    law_plan_holds_every_path_once(
        scan.paths,
        scan.devices,
        scan.groups,
        scan.weights,
        scan.total_workers,
        scan.jobs,
        m,
    );
    let i = choose|i: int| 0 <= i < scan.jobs.len() && #[trigger] job_holds(scan.jobs, i, m);
    let job = scan.jobs[i];
    let group = scan.groups[order[i] as int];
    assert(job.indexes@ == group);
    assert(group.contains(m));
    let q = group.index_of(m);
    assert(shortest_first(scan.paths, group));
    let done = scan.turns.map_values(|i: usize| scan.jobs[i as int]);
    let found = scan.turns.map_values(|i: usize| scan.totals_of(i as int));
    let blank = Seq::new(scan.paths.len(), |m: int| None::<RowView>);
    assert(scan.turns.contains(i as usize));
    let t = scan.turns.index_of(i as usize);
    assert(done[t] == job);
    assert forall|j: int| 0 <= j < scan.turns.len() && scan.jobs[(
    #[trigger] scan.turns[j]) as int].indexes@.contains(m) implies j == t by {
        assert(job_holds(scan.jobs, scan.turns[j] as int, m));
        assert(job_holds(scan.jobs, i, m));
        assert(scan.turns[j] == scan.turns[t]);
    }
    assert forall|j: int| 0 <= j < done.len() && #[trigger] job_holds(done, j, m) implies j
        == t by {
        assert(done[j] == scan.jobs[scan.turns[j] as int]);
    }
    lemma_in_table(scan);
    law_row_shows_the_result_of_its_job(
        blank,
        done,
        found,
        scan.names,
        done.len() as int,
        t,
        q,
    );
    (t, q)
}

/// The row of path `m`, with the root of the walk that covers it.
proof fn lemma_row(scan: WholeScan, reports: Reports, m: usize) -> (r: int)
    requires
        scan.is_done(reports),
        m < scan.paths.len(),
    ensures
        0 <= r < scan.paths.len(),
        is_root(scan.paths, scan.devices, r),
        covers(scan.paths, scan.devices, r, m as int),
        scan.rows()[m as int] == Some(
            RowView {
                path: scan.names[m as int],
                totals: own_totals(
                    scan.paths[m as int],
                    scan.devices[m as int],
                    reports(scan.paths[r], scan.devices[r]),
                ),
            },
        ),
        is_steady(scan.devices[r], reports(scan.paths[r], scan.devices[r])),
{
    let (t, q) = lemma_place(scan, m);
    let i = scan.turns[t] as int;
    let job = scan.jobs[i];
    let root = job.root as int;
    let targets = job.indexes@.map_values(|m: usize| scan.paths[m as int]);
    assert(job.indexes@.contains(m));
    assert(job.indexes.len() == job.indexes@.len());
    lemma_walk_totals(
        scan.devices[root],
        targets,
        q,
        scan.events[i],
        scan.walk_of(reports, i),
    );
    root
}

/// Whether `path` on `device` is among the paths to scan.
spec fn is_input(
    paths: Seq<Seq<ComponentView>>,
    devices: Seq<u64>,
    path: Seq<ComponentView>,
    device: u64,
) -> bool {
    exists|j: int| 0 <= j < paths.len() && #[trigger] paths[j] == path && devices[j] == device
}

/// Whether each path of `left` is among `right`, on the same device.
spec fn same_inputs(
    left: Seq<Seq<ComponentView>>,
    left_devices: Seq<u64>,
    right: Seq<Seq<ComponentView>>,
    right_devices: Seq<u64>,
) -> bool {
    forall|i: int|
        0 <= i < left.len() ==> is_input(
            right,
            right_devices,
            #[trigger] left[i],
            left_devices[i],
        )
}

/// Of two roots that cover a path, the shorter one is the other.
proof fn lemma_shorter_root(
    left: Seq<Seq<ComponentView>>,
    left_devices: Seq<u64>,
    a: int,
    right: Seq<Seq<ComponentView>>,
    right_devices: Seq<u64>,
    b: int,
    path: Seq<ComponentView>,
)
    requires
        same_inputs(left, left_devices, right, right_devices),
        0 <= a < left.len(),
        0 <= b < right.len(),
        is_root(right, right_devices, b),
        left_devices[a] == right_devices[b],
        contains_path(left[a], path),
        contains_path(right[b], path),
        left[a].len() <= right[b].len(),
    ensures
        left[a] == right[b],
{
    let j = choose|j: int|
        0 <= j < right.len() && #[trigger] right[j] == left[a] && right_devices[j]
            == left_devices[a];
    let n = left[a].len() as int;
    assert forall|i: int| 0 <= i < n implies left[a][i] == right[b][i] by {
        assert(path.subrange(0, n)[i] == path[i]);
        assert(path.subrange(0, right[b].len() as int)[i] == path[i]);
    }
    assert(left[a] =~= right[b].subrange(0, n));
    if n < right[b].len() {
        assert(covers(right, right_devices, j, b));
        assert(precedes(depths(right), j, b));
    } else {
        assert(left[a] =~= right[b]);
    }
}

/// The roots that cover a path are the same path, however the paths are arranged.
proof fn lemma_one_root(
    left: Seq<Seq<ComponentView>>,
    left_devices: Seq<u64>,
    a: int,
    right: Seq<Seq<ComponentView>>,
    right_devices: Seq<u64>,
    b: int,
    path: Seq<ComponentView>,
    device: u64,
)
    requires
        same_inputs(left, left_devices, right, right_devices),
        same_inputs(right, right_devices, left, left_devices),
        0 <= a < left.len(),
        0 <= b < right.len(),
        is_root(left, left_devices, a),
        is_root(right, right_devices, b),
        left_devices[a] == device,
        right_devices[b] == device,
        contains_path(left[a], path),
        contains_path(right[b], path),
    ensures
        left[a] == right[b],
{
    if left[a].len() <= right[b].len() {
        lemma_shorter_root(left, left_devices, a, right, right_devices, b, path);
    } else {
        lemma_shorter_root(right, right_devices, b, left, left_devices, a, path);
    }
}

/// The row of path `m` shows the path as it was written, and what a scan of the path alone
/// finds among the reports of the walk that covers it, from root `r`.
pub proof fn law_row_is_a_scan_of_its_own(scan: WholeScan, reports: Reports, r: usize, m: usize)
    requires
        scan.is_done(reports),
        r < scan.paths.len(),
        m < scan.paths.len(),
        is_root(scan.paths, scan.devices, r as int),
        covers(scan.paths, scan.devices, r as int, m as int),
    ensures
        scan.rows()[m as int] == Some(
            RowView {
                path: scan.names[m as int],
                totals: own_totals(
                    scan.paths[m as int],
                    scan.devices[m as int],
                    reports(scan.paths[r as int], scan.devices[r as int]),
                ),
            },
        ),
{
    let root = lemma_row(scan, reports, m);
    lemma_one_root(
        scan.paths,
        scan.devices,
        root,
        scan.paths,
        scan.devices,
        r as int,
        scan.paths[m as int],
        scan.devices[m as int],
    );
}

/// Part of the reports agree on sizes where all of them do.
proof fn lemma_sizes_agree_for(
    device: Option<u64>,
    targets: Seq<Seq<ComponentView>>,
    k: int,
    events: Seq<EventView>,
)
    requires
        sizes_agree(device, events),
    ensures
        sizes_agree(device, reports_for(targets, k, events)),
{
    let part = reports_for(targets, k, events);
    assert forall|i: int, j: int, left: FileMeta, right: FileMeta|
        0 <= i < part.len() && 0 <= j < part.len() && #[trigger] is_linked_file(
            device,
            part[i],
            left,
        ) && #[trigger] is_linked_file(device, part[j], right) && left.key()
            == right.key() implies left.blocks == right.blocks by {
        lemma_report_is_among(targets, k, events, i);
        lemma_report_is_among(targets, k, events, j);
        let a = events.index_of(part[i]);
        let b = events.index_of(part[j]);
        assert(is_linked_file(device, events[a], left));
        assert(is_linked_file(device, events[b], right));
    }
}

proof fn lemma_report_is_among(
    targets: Seq<Seq<ComponentView>>,
    k: int,
    events: Seq<EventView>,
    i: int,
)
    requires
        0 <= i < reports_for(targets, k, events).len(),
    ensures
        events.contains(reports_for(targets, k, events)[i]),
    decreases events.len(),
{
    reveal(Seq::filter);
    if events.len() > 0 {
        let rest = events.drop_last();
        let part = reports_for(targets, k, events);
        let fewer = reports_for(targets, k, rest);
        if i < fewer.len() {
            lemma_report_is_among(targets, k, rest, i);
            let at = rest.index_of(fewer[i]);
            assert(events[at] == part[i]);
        } else {
            assert(events[events.len() - 1] == part[i]);
        }
    }
}

/// The row of a path shows no less than that of a path under it on its device, as long as
/// the reports of each walk fit together (`is_steady`) and no counter of the outer path
/// wraps around. `r` is the root of the walk that covers both.
pub proof fn law_outer_row_shows_no_less(
    scan: WholeScan,
    reports: Reports,
    r: usize,
    outer: usize,
    inner: usize,
)
    requires
        scan.is_done(reports),
        outer < scan.paths.len(),
        inner < scan.paths.len(),
        covers(scan.paths, scan.devices, outer as int, inner as int),
        r < scan.paths.len(),
        is_root(scan.paths, scan.devices, r as int),
        covers(scan.paths, scan.devices, r as int, outer as int),
        counters_fit(
            Some(scan.devices[r as int]),
            reports_for(
                seq![scan.paths[outer as int]],
                0,
                reports(scan.paths[r as int], scan.devices[r as int]),
            ),
        ),
    ensures
        scan.rows()[outer as int] matches Some(above) && scan.rows()[inner as int] matches Some(
            below,
        ) && no_larger(below.totals, above.totals),
{
    law_row_is_a_scan_of_its_own(scan, reports, r, outer);
    let root = lemma_row(scan, reports, outer);
    let events = reports(scan.paths[r as int], scan.devices[r as int]);
    let above = seq![scan.paths[outer as int]];
    let below = seq![scan.paths[inner as int]];
    let n = scan.paths[r as int].len() as int;
    assert(scan.paths[outer as int].subrange(0, n) =~= scan.paths[inner as int].subrange(0, n));
    law_row_is_a_scan_of_its_own(scan, reports, r, inner);
    lemma_one_root(
        scan.paths,
        scan.devices,
        root,
        scan.paths,
        scan.devices,
        r as int,
        scan.paths[outer as int],
        scan.devices[outer as int],
    );
    lemma_reports_nest(below, 0, above, 0, events);
    lemma_sizes_agree_for(Some(scan.devices[r as int]), above, 0, events);
    law_part_counts_no_more_than_the_whole(
        Some(scan.devices[r as int]),
        reports_for(above, 0, events),
        reports_for(below, 0, events),
    );
}

/// What is told at position `q` of turn `t`.
proof fn lemma_told_at(scan: WholeScan, n: int, t: int, q: int)
    requires
        0 <= t < n,
        0 <= q < scan.jobs[scan.turns[t] as int].indexes@.len(),
    ensures
        scan.told_of(t).len() + q < scan.told_of(n).len(),
        ({
            let i = scan.turns[t] as int;
            scan.told_of(n)[scan.told_of(t).len() + q] == job_rows(
                scan.jobs[i].indexes@,
                scan.totals_of(i),
                scan.names,
            )[q]
        }),
    decreases n,
{
    if t < n - 1 {
        lemma_told_at(scan, n - 1, t, q);
    }
}

/// The turn, and the position in it, in which the `s`-th result is told.
proof fn lemma_told_when(scan: WholeScan, n: int, s: int) -> (place: (int, int))
    requires
        0 <= s < scan.told_of(n).len(),
    ensures
        0 <= place.0 < n,
        0 <= place.1 < scan.jobs[scan.turns[place.0] as int].indexes@.len(),
        s == scan.told_of(place.0).len() + place.1,
    decreases n,
{
    if s < scan.told_of(n - 1).len() {
        lemma_told_when(scan, n - 1, s)
    } else {
        (n - 1, s - scan.told_of(n - 1).len())
    }
}

/// The place of a path is where it is told.
proof fn lemma_told_path(scan: WholeScan, s: int) -> (place: (int, int))
    requires
        scan.is_planned(),
        0 <= s < scan.told().len(),
    ensures
        0 <= place.0 < scan.turns.len(),
        0 <= place.1 < scan.jobs[scan.turns[place.0] as int].indexes@.len(),
        s == scan.told_of(place.0).len() + place.1,
        scan.told()[s].0 < scan.paths.len(),
        scan.told()[s].0 == scan.jobs[scan.turns[place.0] as int].indexes@[place.1],
        scan.rows()[scan.told()[s].0 as int] == Some(scan.told()[s].1),
{
    let n = scan.turns.len() as int;
    let (t, q) = lemma_told_when(scan, n, s);
    lemma_told_at(scan, n, t, q);
    lemma_in_table(scan);
    let i = scan.turns[t] as int;
    let indexes = scan.jobs[i].indexes@;
    let done = scan.turns.map_values(|i: usize| scan.jobs[i as int]);
    assert(in_table(done[t].indexes@, scan.paths.len() as int));
    let m = indexes[q];
    let (u, p) = lemma_place(scan, m);
    assert(indexes.contains(m));
    assert(scan.jobs[scan.turns[t] as int].indexes@.contains(m));
    assert(t == u);
    assert(p == q);
    (t, q)
}

/// Whether path `m` is the `s`-th that is told.
pub open spec fn is_told_at(told: Seq<(usize, RowView)>, s: int, m: usize) -> bool {
    0 <= s < told.len() && told[s].0 == m
}

/// A caller that takes every result is told of each path once, with the row that is shown
/// for it in the end.
pub proof fn law_each_path_is_told_once(scan: WholeScan, m: usize)
    requires
        scan.is_planned(),
        m < scan.paths.len(),
    ensures
        exists|s: int| #[trigger] is_told_at(scan.told(), s, m),
        forall|s: int, t: int|
            #[trigger] is_told_at(scan.told(), s, m) && #[trigger] is_told_at(scan.told(), t, m)
                ==> s == t,
        forall|s: int| #[trigger]
            is_told_at(scan.told(), s, m) ==> scan.rows()[m as int] == Some(scan.told()[s].1),
{
    let n = scan.turns.len() as int;
    let (u, p) = lemma_place(scan, m);
    lemma_told_at(scan, n, u, p);
    let only = scan.told_of(u).len() + p;
    assert(is_told_at(scan.told(), only, m));
    assert forall|s: int| #[trigger] is_told_at(scan.told(), s, m) implies s == only
        && scan.rows()[m as int] == Some(scan.told()[s].1) by {
        let (t, q) = lemma_told_path(scan, s);
        let indexes = scan.jobs[scan.turns[t] as int].indexes@;
        assert(indexes.contains(indexes[q]));
        assert(t == u);
    }
}

/// Whatever is told belongs to one of the paths.
pub proof fn law_only_paths_are_told(scan: WholeScan, s: int)
    requires
        scan.is_planned(),
        0 <= s < scan.told().len(),
    ensures
        scan.told()[s].0 < scan.paths.len(),
{
    let place = lemma_told_path(scan, s);
}

/// A caller that takes every result is told of a path before those under it on its
/// device, and of a path that is asked for twice in the order of the requests.
pub proof fn law_outer_path_is_told_first(
    scan: WholeScan,
    outer: usize,
    inner: usize,
    s: int,
    t: int,
)
    requires
        scan.is_planned(),
        outer < scan.paths.len(),
        inner < scan.paths.len(),
        covers(scan.paths, scan.devices, outer as int, inner as int),
        precedes(depths(scan.paths), outer as int, inner as int),
        is_told_at(scan.told(), s, outer),
        is_told_at(scan.told(), t, inner),
    ensures
        s < t,
{
    let (u, p) = lemma_place(scan, outer);
    let (v, q) = lemma_place(scan, inner);
    let n = scan.turns.len() as int;
    lemma_told_at(scan, n, u, p);
    lemma_told_at(scan, n, v, q);
    law_each_path_is_told_once(scan, outer);
    law_each_path_is_told_once(scan, inner);
    assert(is_told_at(scan.told(), scan.told_of(u).len() + p, outer));
    assert(is_told_at(scan.told(), scan.told_of(v).len() + q, inner));
    let job = scan.jobs[scan.turns[u] as int];
    let indexes = job.indexes@;
    assert(indexes.contains(outer));
    let k = scan.paths[job.root as int].len() as int;
    assert(scan.paths[outer as int].subrange(0, k) =~= scan.paths[inner as int].subrange(0, k));
    assert(indexes.contains(inner));
    assert(u == v);
    if q < p {
        assert(precedes(depths(scan.paths), indexes[q] as int, indexes[p] as int));
    }
}

/// Whether `right` is asked for what `left` is asked for, in another order: its path `k`
/// is path `order[k]` of `left`.
pub open spec fn is_reordering(left: WholeScan, right: WholeScan, order: Seq<usize>) -> bool {
    &&& lists_each_once(order, left.paths.len() as int)
    &&& order.len() == left.paths.len()
    &&& right.paths == order.map_values(|m: usize| left.paths[m as int])
    &&& right.devices == order.map_values(|m: usize| left.devices[m as int])
    &&& right.names == order.map_values(|m: usize| left.names[m as int])
}

/// Asking for the paths in another order only reorders the rows, where the reports of each
/// walk fit together (`is_steady`). The two scans may differ in their workers and weights,
/// in the order in which their walks reported, and in the order in which their jobs were
/// recorded.
pub proof fn law_order_of_paths_only_orders_the_rows(
    left: WholeScan,
    right: WholeScan,
    order: Seq<usize>,
    reports: Reports,
)
    requires
        left.is_done(reports),
        right.is_done(reports),
        is_reordering(left, right, order),
    ensures
        right.rows() == order.map_values(|m: usize| left.rows()[m as int]),
{
    assert(same_inputs(right.paths, right.devices, left.paths, left.devices)) by {
        assert forall|i: int| 0 <= i < right.paths.len() implies is_input(
            left.paths,
            left.devices,
            #[trigger] right.paths[i],
            right.devices[i],
        ) by {
            assert(left.paths[order[i] as int] == right.paths[i]);
        }
    }
    assert(same_inputs(left.paths, left.devices, right.paths, right.devices)) by {
        assert forall|i: int| 0 <= i < left.paths.len() implies is_input(
            right.paths,
            right.devices,
            #[trigger] left.paths[i],
            left.devices[i],
        ) by {
            assert(order.contains(i as usize));
            assert(right.paths[order.index_of(i as usize)] == left.paths[i]);
        }
    }
    lemma_rows_len(left);
    lemma_rows_len(right);
    let expected = order.map_values(|m: usize| left.rows()[m as int]);
    assert forall|k: int| 0 <= k < order.len() implies right.rows()[k] == expected[k] by {
        let m = order[k];
        let a = lemma_row(left, reports, m);
        let b = lemma_row(right, reports, k as usize);
        lemma_one_root(
            left.paths,
            left.devices,
            a,
            right.paths,
            right.devices,
            b,
            left.paths[m as int],
            left.devices[m as int],
        );
    }
    assert(right.rows() =~= expected);
}

/// The number of workers never changes a row, where the reports of each walk fit together
/// (`is_steady`), nor does what depends on it: the order in which the walks report, and
/// the order in which the jobs are recorded.
pub proof fn law_workers_never_change_a_row(few: WholeScan, many: WholeScan, reports: Reports)
    requires
        few.is_done(reports),
        many.is_done(reports),
        few.paths == many.paths,
        few.devices == many.devices,
        few.names == many.names,
    ensures
        few.rows() == many.rows(),
{
    let order = Seq::new(few.paths.len(), |m: int| m as usize);
    assert forall|k: usize| k < few.paths.len() implies #[trigger] order.contains(k) by {
        assert(order[k as int] == k);
    }
    assert(many.paths =~= order.map_values(|m: usize| few.paths[m as int]));
    assert(many.devices =~= order.map_values(|m: usize| few.devices[m as int]));
    assert(many.names =~= order.map_values(|m: usize| few.names[m as int]));
    law_order_of_paths_only_orders_the_rows(few, many, order, reports);
    lemma_rows_len(few);
    assert(few.rows() =~= order.map_values(|m: usize| few.rows()[m as int]));
}

} // verus!
