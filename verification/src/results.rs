//! The results of a scan of several directories.

use crate::dir_scan::ScanTotals;
use crate::error::{texts, ScanError};
use crate::grouping::{is_grouping, law_groups_hold_every_path};
use crate::jobs::{is_plan, job_holds, law_plan_holds_every_path_once, GroupJob};
use crate::order::{descending, law_stable_order_exists, stable_order};
use crate::path::ComponentView;
use vstd::prelude::*;

verus! {

/// The result for one path.
#[derive(Debug, Clone)]
pub struct ScanRow {
    /// The path as the caller gave it.
    pub path: String,
    pub totals: ScanTotals,
}

/// The result for one path, with the path as a text.
pub struct RowView {
    pub path: Seq<char>,
    pub totals: ScanTotals,
}

impl View for ScanRow {
    type V = RowView;

    open spec fn view(&self) -> RowView {
        RowView { path: self.path@, totals: self.totals }
    }
}

/// The rows of a table, filled or not.
pub open spec fn row_views(rows: Seq<Option<ScanRow>>) -> Seq<Option<RowView>> {
    rows.map_values(
        |row: Option<ScanRow>|
            match row {
                Some(row) => Some(row@),
                None => None,
            },
    )
}

/// Whether each of `indexes` is the index of one of `count` rows.
pub open spec fn in_table(indexes: Seq<usize>, count: int) -> bool {
    forall|p: int| 0 <= p < indexes.len() ==> #[trigger] indexes[p] < count
}

/// `rows` with the first `n` of a job's results put in their places.
pub open spec fn recorded(
    rows: Seq<Option<RowView>>,
    indexes: Seq<usize>,
    totals: Seq<ScanTotals>,
    paths: Seq<Seq<char>>,
    n: int,
) -> Seq<Option<RowView>>
    decreases n,
{
    if n <= 0 {
        rows
    } else {
        let m = indexes[n - 1] as int;
        recorded(rows, indexes, totals, paths, n - 1).update(
            m,
            Some(RowView { path: paths[m], totals: totals[n - 1] }),
        )
    }
}

/// The rows of a job, each with the index of its path.
pub open spec fn job_rows(
    indexes: Seq<usize>,
    totals: Seq<ScanTotals>,
    paths: Seq<Seq<char>>,
) -> Seq<(usize, RowView)> {
    Seq::new(
        indexes.len(),
        |p: int| (indexes[p], RowView { path: paths[indexes[p] as int], totals: totals[p] }),
    )
}

/// The results of the paths to scan, in the order in which the paths were given.
pub struct ResultTable {
    rows: Vec<Option<ScanRow>>,
}

impl View for ResultTable {
    type V = Seq<Option<RowView>>;

    closed spec fn view(&self) -> Seq<Option<RowView>> {
        row_views(self.rows@)
    }
}

impl ResultTable {
    /// A table for `count` paths, none of which has a result yet.
    pub fn new(count: usize) -> (table: Self)
        ensures
            table@ == Seq::new(count as nat, |m: int| None::<RowView>),
            table@.len() == count,
            forall|m: int| 0 <= m < count ==> #[trigger] table@[m] is None,
    {
        let mut rows: Vec<Option<ScanRow>> = Vec::new();
        let mut m: usize = 0;
        while m < count
            invariant
                m <= count,
                rows@.len() == m,
                forall|j: int| 0 <= j < m ==> #[trigger] rows@[j] is None,
            decreases count - m,
        {
            rows.push(None);
            m = m + 1;
        }
        let table = ResultTable { rows };
        assert(table@ =~= Seq::new(count as nat, |m: int| None::<RowView>));
        table
    }

    /// Records the result at `position` among those of a job, and returns it with the
    /// index of its path.
    pub fn record_result(
        &mut self,
        job: &GroupJob,
        totals: &Vec<ScanTotals>,
        paths: &Vec<String>,
        position: usize,
    ) -> (told: (usize, ScanRow))
        requires
            paths@.len() == old(self)@.len(),
            totals@.len() == job.indexes@.len(),
            in_table(job.indexes@, paths@.len() as int),
            position < job.indexes@.len(),
        ensures
            (told.0, told.1@) == job_rows(job.indexes@, totals@, texts(paths@))[position as int],
            final(self)@ == old(self)@.update(told.0 as int, Some(told.1@)),
    {
        let m = job.indexes[position];
        let row = ScanRow { path: paths[m].clone(), totals: totals[position] };
        let copy = ScanRow { path: row.path.clone(), totals: row.totals };
        self.rows.set(m, Some(copy));
        assert(self@ =~= old(self)@.update(m as int, Some(row@)));
        (m, row)
    }

    /// The results, in the order of the paths. Where workers reported failures, or a path
    /// has no result, that is the outcome instead.
    pub fn finish(self, failures: Vec<String>) -> (outcome: Result<Vec<ScanRow>, ScanError>)
        ensures
            match outcome {
                Ok(rows) => {
                    &&& failures@.len() == 0
                    &&& rows@.len() == self@.len()
                    &&& forall|m: int|
                        0 <= m < self@.len() ==> self@[m] == Some(#[trigger] rows@[m]@)
                },
                Err(ScanError::Failures { messages }) => {
                    &&& failures@.len() > 0
                    &&& messages == failures
                },
                Err(ScanError::MissingResult { index }) => {
                    &&& failures@.len() == 0
                    &&& index < self@.len()
                    &&& self@[index as int] is None
                    &&& forall|m: int| 0 <= m < index ==> #[trigger] self@[m] is Some
                },
                Err(_) => false,
            },
            failures@.len() > 0 ==> outcome == Err::<Vec<ScanRow>, ScanError>(
                ScanError::Failures { messages: failures },
            ),
            outcome is Ok <==> failures@.len() == 0 && forall|m: int|
                0 <= m < self@.len() ==> #[trigger] self@[m] is Some,
    {
        if failures.len() > 0 {
            return Err(ScanError::Failures { messages: failures });
        }
        let mut rows: Vec<ScanRow> = Vec::new();
        let mut m: usize = 0;
        while m < self.rows.len()
            invariant
                m <= self.rows@.len(),
                failures@.len() == 0,
                rows@.len() == m,
                forall|j: int| 0 <= j < m ==> self@[j] == Some(#[trigger] rows@[j]@),
                forall|j: int| 0 <= j < m ==> #[trigger] self@[j] is Some,
            decreases self.rows.len() - m,
        {
            match &self.rows[m] {
                Some(row) => {
                    let copy = ScanRow { path: row.path.clone(), totals: row.totals };
                    assert(self@[m as int] == Some(copy@));
                    rows.push(copy);
                },
                None => {
                    assert(self@[m as int] is None);
                    return Err(ScanError::MissingResult { index: m });
                },
            }
            m = m + 1;
        }
        Ok(rows)
    }
}

/// What the whole scan comes to where the table of results is lost: what the workers
/// reported, or else that it is lost.
pub fn lost_results(failures: Vec<String>) -> (error: ScanError)
    ensures
        error == (if failures@.len() > 0 {
            ScanError::Failures { messages: failures }
        } else {
            ScanError::ResultsPoisoned
        }),
{
    if failures.len() > 0 {
        ScanError::Failures { messages: failures }
    } else {
        ScanError::ResultsPoisoned
    }
}

/// `rows` with the results of the first `n` jobs put in their places.
pub open spec fn recorded_jobs(
    rows: Seq<Option<RowView>>,
    jobs: Seq<GroupJob>,
    totals: Seq<Seq<ScanTotals>>,
    paths: Seq<Seq<char>>,
    n: int,
) -> Seq<Option<RowView>>
    decreases n,
{
    if n <= 0 {
        rows
    } else {
        let indexes = jobs[n - 1].indexes@;
        recorded(
            recorded_jobs(rows, jobs, totals, paths, n - 1),
            indexes,
            totals[n - 1],
            paths,
            indexes.len() as int,
        )
    }
}

proof fn lemma_recorded_len(
    rows: Seq<Option<RowView>>,
    indexes: Seq<usize>,
    totals: Seq<ScanTotals>,
    paths: Seq<Seq<char>>,
    n: int,
)
    requires
        0 <= n <= indexes.len(),
        in_table(indexes, rows.len() as int),
    ensures
        recorded(rows, indexes, totals, paths, n).len() == rows.len(),
    decreases n,
{
    if n > 0 {
        lemma_recorded_len(rows, indexes, totals, paths, n - 1);
    }
}

/// Recording a job touches only its own rows.
proof fn lemma_recorded_elsewhere(
    rows: Seq<Option<RowView>>,
    indexes: Seq<usize>,
    totals: Seq<ScanTotals>,
    paths: Seq<Seq<char>>,
    n: int,
    m: usize,
)
    requires
        0 <= n <= indexes.len(),
        in_table(indexes, rows.len() as int),
        m < rows.len(),
        forall|p: int| 0 <= p < n ==> #[trigger] indexes[p] != m,
    ensures
        recorded(rows, indexes, totals, paths, n)[m as int] == rows[m as int],
    decreases n,
{
    if n > 0 {
        lemma_recorded_elsewhere(rows, indexes, totals, paths, n - 1, m);
        lemma_recorded_len(rows, indexes, totals, paths, n - 1);
        assert(indexes[n - 1] != m);
    }
}

/// Recording a job fills each of its rows.
proof fn lemma_recorded_here(
    rows: Seq<Option<RowView>>,
    indexes: Seq<usize>,
    totals: Seq<ScanTotals>,
    paths: Seq<Seq<char>>,
    n: int,
    p: int,
)
    requires
        0 <= p < n <= indexes.len(),
        indexes.no_duplicates(),
        in_table(indexes, rows.len() as int),
    ensures
        recorded(rows, indexes, totals, paths, n)[indexes[p] as int] == Some(
            RowView { path: paths[indexes[p] as int], totals: totals[p] },
        ),
    decreases n,
{
    lemma_recorded_len(rows, indexes, totals, paths, n - 1);
    if p < n - 1 {
        lemma_recorded_here(rows, indexes, totals, paths, n - 1, p);
        assert(indexes[p] != indexes[n - 1]);
    }
}

/// The rows that a worker tells of are the rows that stand in the table when the job has
/// been recorded.
pub proof fn law_told_rows_are_recorded(
    rows: Seq<Option<RowView>>,
    indexes: Seq<usize>,
    totals: Seq<ScanTotals>,
    paths: Seq<Seq<char>>,
    p: int,
)
    requires
        0 <= p < indexes.len(),
        indexes.no_duplicates(),
        in_table(indexes, rows.len() as int),
    ensures
        ({
            let (m, row) = job_rows(indexes, totals, paths)[p];
            recorded(rows, indexes, totals, paths, indexes.len() as int)[m as int] == Some(row)
        }),
{
    lemma_recorded_here(rows, indexes, totals, paths, indexes.len() as int, p);
}

pub(crate) proof fn lemma_recorded_jobs_len(
    rows: Seq<Option<RowView>>,
    jobs: Seq<GroupJob>,
    totals: Seq<Seq<ScanTotals>>,
    paths: Seq<Seq<char>>,
    n: int,
)
    requires
        0 <= n <= jobs.len(),
        forall|j: int|
            0 <= j < jobs.len() ==> in_table((#[trigger] jobs[j]).indexes@, rows.len() as int),
    ensures
        recorded_jobs(rows, jobs, totals, paths, n).len() == rows.len(),
    decreases n,
{
    if n > 0 {
        lemma_recorded_jobs_len(rows, jobs, totals, paths, n - 1);
        let before = recorded_jobs(rows, jobs, totals, paths, n - 1);
        let indexes = jobs[n - 1].indexes@;
        lemma_recorded_len(before, indexes, totals[n - 1], paths, indexes.len() as int);
    }
}

/// Each path's row shows the path and what its own job found for it, in whatever order
/// the jobs were recorded, as long as just one job holds the path.
pub proof fn law_row_shows_the_result_of_its_job(
    rows: Seq<Option<RowView>>,
    jobs: Seq<GroupJob>,
    totals: Seq<Seq<ScanTotals>>,
    paths: Seq<Seq<char>>,
    n: int,
    i: int,
    p: int,
)
    requires
        0 <= i < n <= jobs.len(),
        jobs[i].indexes@.no_duplicates(),
        0 <= p < jobs[i].indexes@.len(),
        forall|j: int|
            0 <= j < jobs.len() ==> in_table((#[trigger] jobs[j]).indexes@, rows.len() as int),
        forall|j: int|
            0 <= j < jobs.len() && #[trigger] job_holds(jobs, j, jobs[i].indexes@[p]) ==> j == i,
    ensures
        recorded_jobs(rows, jobs, totals, paths, n)[jobs[i].indexes@[p] as int] == Some(
            RowView { path: paths[jobs[i].indexes@[p] as int], totals: totals[i][p] },
        ),
    decreases n,
{
    let before = recorded_jobs(rows, jobs, totals, paths, n - 1);
    let indexes = jobs[n - 1].indexes@;
    let m = jobs[i].indexes@[p];
    lemma_recorded_jobs_len(rows, jobs, totals, paths, n - 1);
    if i == n - 1 {
        lemma_recorded_here(before, indexes, totals[i], paths, indexes.len() as int, p);
    } else {
        law_row_shows_the_result_of_its_job(rows, jobs, totals, paths, n - 1, i, p);
        assert forall|q: int| 0 <= q < indexes.len() implies #[trigger] indexes[q] != m by {
            if indexes[q] == m {
                assert(indexes.contains(m));
                assert(job_holds(jobs, n - 1, m));
            }
        }
        lemma_recorded_elsewhere(
            before,
            indexes,
            totals[n - 1],
            paths,
            indexes.len() as int,
            m,
        );
    }
}

/// When every job of a plan has been recorded, no path is without a result.
pub proof fn law_recorded_plan_is_complete(
    components: Seq<Seq<ComponentView>>,
    devices: Seq<u64>,
    groups: Seq<Seq<usize>>,
    weights: Seq<u64>,
    total_workers: int,
    jobs: Seq<GroupJob>,
    rows: Seq<Option<RowView>>,
    totals: Seq<Seq<ScanTotals>>,
    paths: Seq<Seq<char>>,
)
    requires
        components.len() <= usize::MAX,
        is_grouping(components, devices, groups),
        weights.len() == groups.len() <= usize::MAX,
        is_plan(groups, weights, total_workers, jobs),
        rows.len() == components.len(),
    ensures
        forall|m: int|
            0 <= m < rows.len() ==> (#[trigger] recorded_jobs(
                rows,
                jobs,
                totals,
                paths,
                jobs.len() as int,
            )[m]) is Some,
{
    let n = jobs.len() as int;
    law_groups_hold_every_path(components, devices, groups);
    law_stable_order_exists(descending(weights));
    assert forall|j: int| 0 <= j < jobs.len() implies in_table(
        (#[trigger] jobs[j]).indexes@,
        rows.len() as int,
    ) by {
        let k = stable_order(descending(weights))[j] as int;
        assert(jobs[j].indexes@ == groups[k]);
        assert forall|p: int| 0 <= p < groups[k].len() implies #[trigger] groups[k][p]
            < rows.len() by {
            assert(groups[k].contains(groups[k][p]));
        }
    }
    assert forall|m: int| 0 <= m < rows.len() implies (#[trigger] recorded_jobs(
        rows,
        jobs,
        totals,
        paths,
        n,
    )[m]) is Some by {
        let index = m as usize;
        law_plan_holds_every_path_once(
            components,
            devices,
            groups,
            weights,
            total_workers,
            jobs,
            index,
        );
        let i = choose|i: int| 0 <= i < jobs.len() && #[trigger] job_holds(jobs, i, index);
        let p = jobs[i].indexes@.index_of(index);
        let k = stable_order(descending(weights))[i] as int;
        assert(jobs[i].indexes@ == groups[k]);
        law_row_shows_the_result_of_its_job(rows, jobs, totals, paths, n, i, p);
    }
}

/// Recording the first `n` results of a job gives each of its paths, up to there, a row
/// with the path and what was found for it, and leaves every other row as it was.
pub proof fn law_recording_fills_the_rows_of_its_paths(
    rows: Seq<Option<RowView>>,
    indexes: Seq<usize>,
    totals: Seq<ScanTotals>,
    paths: Seq<Seq<char>>,
    n: int,
    m: usize,
)
    requires
        0 <= n <= indexes.len(),
        indexes.no_duplicates(),
        in_table(indexes, rows.len() as int),
        m < rows.len(),
    ensures
        recorded(rows, indexes, totals, paths, n).len() == rows.len(),
        forall|p: int|
            0 <= p < n && #[trigger] indexes[p] == m ==> recorded(
                rows,
                indexes,
                totals,
                paths,
                n,
            )[m as int] == Some(RowView { path: paths[m as int], totals: totals[p] }),
        (forall|p: int| 0 <= p < n ==> #[trigger] indexes[p] != m) ==> recorded(
            rows,
            indexes,
            totals,
            paths,
            n,
        )[m as int] == rows[m as int],
{
    lemma_recorded_len(rows, indexes, totals, paths, n);
    if forall|p: int| 0 <= p < n ==> #[trigger] indexes[p] != m {
        lemma_recorded_elsewhere(rows, indexes, totals, paths, n, m);
    }
    assert forall|p: int| 0 <= p < n && #[trigger] indexes[p] == m implies recorded(
        rows,
        indexes,
        totals,
        paths,
        n,
    )[m as int] == Some(RowView { path: paths[m as int], totals: totals[p] }) by {
        lemma_recorded_here(rows, indexes, totals, paths, n, p);
    }
}

/// The results of a job are told by the indexes of its paths, in its order, each with the
/// path as it was given and what was found for it.
pub proof fn law_results_are_told_by_index(
    indexes: Seq<usize>,
    totals: Seq<ScanTotals>,
    paths: Seq<Seq<char>>,
    p: int,
)
    requires
        0 <= p < indexes.len(),
    ensures
        job_rows(indexes, totals, paths).len() == indexes.len(),
        job_rows(indexes, totals, paths)[p].0 == indexes[p],
        job_rows(indexes, totals, paths)[p].1.path == paths[indexes[p] as int],
        job_rows(indexes, totals, paths)[p].1.totals == totals[p],
{
}

/// A row shows its path and its totals as they are.
pub proof fn law_rows_show_what_they_hold(row: ScanRow, rows: Seq<Option<ScanRow>>, m: int)
    requires
        0 <= m < rows.len(),
    ensures
        row@.path == row.path@,
        row@.totals == row.totals,
        row_views(rows).len() == rows.len(),
        row_views(rows)[m] is Some <==> rows[m] is Some,
        rows[m] is Some ==> row_views(rows)[m] == Some(rows[m]->0@),
{
}

} // verus!
