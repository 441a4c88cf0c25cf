//! How the results of a job are recorded and told one by one.

use crate::dir_scan::ScanTotals;
use crate::jobs::GroupJob;
use crate::results::{job_rows, recorded, RowView};
use crate::worker::WorkerEvent;
use vstd::prelude::*;

verus! {

/// A job whose walk came back with a wrong number of results is over.
pub fn check_results(job: &GroupJob, totals: &Vec<ScanTotals>) -> (outcome: Result<
    (),
    WorkerEvent,
>)
    ensures
        outcome == (if totals@.len() == job.indexes@.len() {
            Ok(())
        } else {
            Err(WorkerEvent::ResultLength)
        }),
{
    if totals.len() == job.indexes.len() {
        Ok(())
    } else {
        Err(WorkerEvent::ResultLength)
    }
}

/// What a worker does next with the results of a job.
#[derive(Debug, Clone)]
pub enum Notice {
    /// Record the result at this position, and tell the caller of it.
    Tell { position: usize },
    /// The job is over.
    Over { event: WorkerEvent },
}

/// The results are recorded and told in the order of their positions.
pub open spec fn notice_at(position: int, count: int) -> Notice {
    if position < count {
        Notice::Tell { position: position as usize }
    } else {
        Notice::Over { event: WorkerEvent::Delivered }
    }
}

/// The caller's first refusal ends the job: the results after it are not recorded.
pub open spec fn notice_after(
    position: int,
    count: int,
    outcome: Result<(), String>,
) -> Notice {
    match outcome {
        Ok(()) => notice_at(position + 1, count),
        Err(message) => Notice::Over { event: WorkerEvent::CallbackFailed { message } },
    }
}

/// What a worker does first with `count` results.
pub fn first_notice(count: usize) -> (notice: Notice)
    ensures
        notice == notice_at(0, count as int),
{
    if 0 < count {
        Notice::Tell { position: 0 }
    } else {
        Notice::Over { event: WorkerEvent::Delivered }
    }
}

/// What a worker does when the caller has been told of the result at `position`, one of
/// `count`. `outcome` is what the caller answered.
pub fn next_notice(position: usize, count: usize, outcome: Result<(), String>) -> (notice: Notice)
    requires
        position < count,
    ensures
        notice == notice_after(position as int, count as int, outcome),
{
    match outcome {
        Ok(()) => {
            if position + 1 < count {
                Notice::Tell { position: position + 1 }
            } else {
                Notice::Over { event: WorkerEvent::Delivered }
            }
        },
        Err(message) => Notice::Over { event: WorkerEvent::CallbackFailed { message } },
    }
}

/// The table after a worker has been given `answers` to the results of a job, and what the
/// worker does next. `rows` is the table before.
pub open spec fn delivery(
    rows: Seq<Option<RowView>>,
    indexes: Seq<usize>,
    totals: Seq<ScanTotals>,
    paths: Seq<Seq<char>>,
    answers: Seq<Result<(), String>>,
) -> (Seq<Option<RowView>>, Notice)
    decreases answers.len(),
{
    let count = indexes.len() as int;
    if answers.len() == 0 {
        (rows, notice_at(0, count))
    } else {
        let (before, notice) = delivery(rows, indexes, totals, paths, answers.drop_last());
        match notice {
            Notice::Tell { position } => {
                let (m, row) = job_rows(indexes, totals, paths)[position as int];
                (
                    before.update(m as int, Some(row)),
                    notice_after(position as int, count, answers.last()),
                )
            },
            Notice::Over { .. } => (before, notice),
        }
    }
}

/// Whether the caller takes each of the first `n` results.
pub open spec fn takes(answers: Seq<Result<(), String>>, n: int) -> bool {
    forall|q: int| 0 <= q < n ==> #[trigger] answers[q] is Ok
}

proof fn lemma_taken(
    rows: Seq<Option<RowView>>,
    indexes: Seq<usize>,
    totals: Seq<ScanTotals>,
    paths: Seq<Seq<char>>,
    answers: Seq<Result<(), String>>,
)
    requires
        answers.len() <= indexes.len() <= usize::MAX,
        takes(answers, answers.len() as int),
    ensures
        delivery(rows, indexes, totals, paths, answers) == (
            recorded(rows, indexes, totals, paths, answers.len() as int),
            notice_at(answers.len() as int, indexes.len() as int),
        ),
    decreases answers.len(),
{
    if answers.len() > 0 {
        let fewer = answers.drop_last();
        assert forall|q: int| 0 <= q < fewer.len() implies #[trigger] fewer[q] is Ok by {
            assert(fewer[q] == answers[q]);
        }
        lemma_taken(rows, indexes, totals, paths, fewer);
        assert(answers[answers.len() - 1] is Ok);
    }
}

/// Where the caller takes every result of a job, all of them are recorded, and the job is
/// delivered.
pub proof fn law_taken_results_are_recorded(
    rows: Seq<Option<RowView>>,
    indexes: Seq<usize>,
    totals: Seq<ScanTotals>,
    paths: Seq<Seq<char>>,
    answers: Seq<Result<(), String>>,
)
    requires
        answers.len() == indexes.len() <= usize::MAX,
        takes(answers, answers.len() as int),
    ensures
        delivery(rows, indexes, totals, paths, answers) == (
            recorded(rows, indexes, totals, paths, indexes.len() as int),
            Notice::Over { event: WorkerEvent::Delivered },
        ),
{
    lemma_taken(rows, indexes, totals, paths, answers);
}

/// The first result that the caller refuses is the last that is recorded, and the refusal
/// is what becomes of the job.
pub proof fn law_first_refusal_ends_the_job(
    rows: Seq<Option<RowView>>,
    indexes: Seq<usize>,
    totals: Seq<ScanTotals>,
    paths: Seq<Seq<char>>,
    answers: Seq<Result<(), String>>,
    p: int,
    message: String,
)
    requires
        0 <= p < answers.len(),
        p < indexes.len() <= usize::MAX,
        takes(answers, p),
        answers[p] == Err::<(), String>(message),
    ensures
        delivery(rows, indexes, totals, paths, answers) == (
            recorded(rows, indexes, totals, paths, p + 1),
            Notice::Over { event: WorkerEvent::CallbackFailed { message } },
        ),
    decreases answers.len(),
{
    let fewer = answers.drop_last();
    if p < fewer.len() {
        assert(fewer[p] == answers[p]);
        assert forall|q: int| 0 <= q < p implies #[trigger] fewer[q] is Ok by {
            assert(fewer[q] == answers[q]);
        }
        law_first_refusal_ends_the_job(rows, indexes, totals, paths, fewer, p, message);
    } else {
        assert forall|q: int| 0 <= q < fewer.len() implies #[trigger] fewer[q] is Ok by {
            assert(fewer[q] == answers[q]);
        }
        lemma_taken(rows, indexes, totals, paths, fewer);
        assert(answers.last() == answers[p]);
    }
}

/// The results are taken in turn: the first comes first, each is followed by the next one,
/// the last by the end of the job, and a refusal by the end with the caller's words.
pub proof fn law_results_are_taken_in_turn(position: usize, count: usize, message: String)
    ensures
        count > 0 ==> notice_at(0, count as int) == (Notice::Tell { position: 0 }),
        count == 0 ==> notice_at(0, count as int) == (Notice::Over {
            event: WorkerEvent::Delivered,
        }),
        position + 1 < count ==> notice_after(position as int, count as int, Ok(())) == (
        Notice::Tell { position: (position + 1) as usize }),
        position + 1 == count ==> notice_after(position as int, count as int, Ok(())) == (
        Notice::Over { event: WorkerEvent::Delivered }),
        notice_after(position as int, count as int, Err(message)) == (Notice::Over {
            event: WorkerEvent::CallbackFailed { message },
        }),
{
}

} // verus!
