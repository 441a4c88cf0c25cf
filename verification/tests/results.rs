use rust_scanner::delivery::{check_results, first_notice, next_notice, Notice};
use rust_scanner::dir_scan::ScanTotals;
use rust_scanner::error::{join_messages, ScanError};
use rust_scanner::inputs::{admit_path, admit_paths, goes_on, Probe};
use rust_scanner::jobs::GroupJob;
use rust_scanner::results::{lost_results, ResultTable};
use rust_scanner::worker::{WorkerAction, WorkerEvent};

fn job(indexes: &[usize]) -> GroupJob {
    GroupJob { root: indexes[0], indexes: indexes.to_vec(), weight: 1, threads: 1 }
}

fn totals(kb: u64) -> ScanTotals {
    ScanTotals { kb, skipped_perm: kb + 1, skipped_cross_dev: kb + 2 }
}

fn strings(texts: &[&str]) -> Vec<String> {
    texts.iter().map(|t| t.to_string()).collect()
}

/// Records the results of a job, and tells them to a caller that answers with `answers`.
/// Returns what was told, and what became of the job.
fn deliver(
    table: &mut ResultTable,
    job: &GroupJob,
    totals: &Vec<ScanTotals>,
    paths: &Vec<String>,
    answers: &[Result<(), String>],
) -> (Vec<(usize, String, u64)>, WorkerEvent) {
    let mut told = vec![];
    let mut notice = first_notice(totals.len());
    loop {
        match notice {
            Notice::Tell { position } => {
                let (m, row) = table.record_result(job, totals, paths, position);
                told.push((m, row.path, row.totals.kb));
                notice = next_notice(position, totals.len(), answers[position].clone());
            }
            Notice::Over { event } => return (told, event),
        }
    }
}

fn record(table: &mut ResultTable, job: &GroupJob, totals: &Vec<ScanTotals>, paths: &Vec<String>) {
    assert!(check_results(job, totals).is_ok());
    let answers = vec![Ok(()); totals.len()];
    let (_, event) = deliver(table, job, totals, paths, &answers);
    assert!(matches!(event, WorkerEvent::Delivered));
}

#[test]
fn rows_come_in_the_order_of_the_paths() {
    let paths = strings(&["x", "y", "z"]);
    let mut table = ResultTable::new(3);
    record(&mut table, &job(&[1]), &vec![totals(20)], &paths);
    record(&mut table, &job(&[2, 0]), &vec![totals(30), totals(10)], &paths);
    let rows = table.finish(vec![]).unwrap();
    let shown: Vec<(String, u64)> = rows.iter().map(|r| (r.path.clone(), r.totals.kb)).collect();
    assert_eq!(
        shown,
        vec![("x".to_string(), 10), ("y".to_string(), 20), ("z".to_string(), 30)]
    );
    assert_eq!(rows[2].totals, totals(30));
}

#[test]
fn the_order_of_the_jobs_does_not_matter() {
    let paths = strings(&["x", "y", "z"]);
    let mut table = ResultTable::new(3);
    record(&mut table, &job(&[2, 0]), &vec![totals(30), totals(10)], &paths);
    record(&mut table, &job(&[1]), &vec![totals(20)], &paths);
    let kbs: Vec<u64> = table.finish(vec![]).unwrap().iter().map(|r| r.totals.kb).collect();
    assert_eq!(kbs, vec![10, 20, 30]);
}

#[test]
fn a_wrong_number_of_results_is_refused() {
    assert!(check_results(&job(&[0, 1]), &vec![totals(1), totals(2)]).is_ok());
    for found in [vec![], vec![totals(1)], vec![totals(1); 3]] {
        let outcome = check_results(&job(&[0, 1]), &found);
        assert!(matches!(outcome, Err(WorkerEvent::ResultLength)));
    }
}

#[test]
fn the_first_missing_row_is_told() {
    let paths = strings(&["x", "y", "z"]);
    let mut table = ResultTable::new(3);
    record(&mut table, &job(&[0]), &vec![totals(1)], &paths);
    let error = table.finish(vec![]).unwrap_err();
    assert!(matches!(error, ScanError::MissingResult { index: 1 }));
    assert_eq!(error.message(), "Missing scan result at index 1");
}

#[test]
fn failures_come_before_missing_rows() {
    let error = ResultTable::new(2).finish(strings(&["first", "second"])).unwrap_err();
    assert_eq!(error.message(), "first; second");
}

#[test]
fn an_empty_table_is_complete() {
    assert!(ResultTable::new(0).finish(vec![]).unwrap().is_empty());
}

#[test]
fn messages_are_joined() {
    assert_eq!(join_messages(&vec![], "; "), "");
    assert_eq!(join_messages(&strings(&["a"]), "; "), "a");
    assert_eq!(join_messages(&strings(&["a", "", "b"]), "; "), "a; ; b");
}

#[test]
fn each_error_has_its_message() {
    let path = "/data".to_string();
    let cause = "denied".to_string();
    let message = |error: ScanError| error.message();
    assert_eq!(message(ScanError::PathNotFound { path: path.clone() }), "Path not found: /data");
    assert_eq!(
        message(ScanError::Canonicalize { path: path.clone(), cause: cause.clone() }),
        "canonicalize error /data: denied"
    );
    assert_eq!(message(ScanError::Metadata { path, cause }), "metadata error /data: denied");
    assert_eq!(message(ScanError::ResultLength), "scan result length mismatch");
    assert_eq!(message(ScanError::QueuePoisoned), "queue lock poisoned");
    assert_eq!(message(ScanError::ResultsPoisoned), "result lock poisoned");
    assert_eq!(message(ScanError::WorkerPanicked), "worker thread panicked");
    for index in [0, 9, 10, 407, 12_345_678_900, usize::MAX] {
        assert_eq!(
            message(ScanError::MissingResult { index }),
            format!("Missing scan result at index {index}")
        );
    }
}

#[test]
fn workers_report_and_stop_or_go_on() {
    let lost = |path: &str, cause: &str| WorkerEvent::ScanFailed {
        error: ScanError::Metadata { path: path.to_string(), cause: cause.to_string() },
    };
    let failed = || lost("\"/data\"", "denied");
    let refused = || WorkerEvent::CallbackFailed { message: "no call".to_string() };
    assert_eq!(WorkerEvent::NoJob.report(), None);
    assert_eq!(WorkerEvent::Delivered.report(), None);
    assert_eq!(
        failed().report(),
        Some("RuntimeError: metadata error \"/data\": denied".to_string())
    );
    assert_eq!(refused().report(), Some("no call".to_string()));
    assert_eq!(WorkerEvent::QueuePoisoned.report(), Some("queue lock poisoned".to_string()));
    assert_eq!(WorkerEvent::ResultsPoisoned.report(), Some("result lock poisoned".to_string()));
    assert_eq!(WorkerEvent::ResultLength.report(), Some("scan result length mismatch".to_string()));
    for reported in [false, true] {
        assert_eq!(WorkerEvent::Delivered.action(reported), WorkerAction::TakeJob);
        assert_eq!(failed().action(reported), WorkerAction::TakeJob);
        assert_eq!(WorkerEvent::NoJob.action(reported), WorkerAction::Stop);
        assert_eq!(refused().action(reported), WorkerAction::Stop);
        assert_eq!(WorkerEvent::QueuePoisoned.action(reported), WorkerAction::Stop);
        assert_eq!(WorkerEvent::ResultLength.action(reported), WorkerAction::Stop);
    }
    assert_eq!(WorkerEvent::ResultsPoisoned.action(true), WorkerAction::Stop);
    assert_eq!(WorkerEvent::ResultsPoisoned.action(false), WorkerAction::TakeJob);
}

#[test]
fn paths_are_admitted_or_refused() {
    let path = "/data".to_string();
    let cause = || "denied".to_string();
    let refusal = |probe: Probe| admit_path(&path, &probe).unwrap_err().message();
    assert_eq!(refusal(Probe::Missing), "Path not found: /data");
    assert_eq!(refusal(Probe::Unresolved { cause: cause() }), "canonicalize error /data: denied");
    assert_eq!(refusal(Probe::NoMetadata { cause: cause() }), "metadata error /data: denied");
    assert!(matches!(admit_path(&path, &Probe::Found { dev: 7 }), Ok(7)));
}

#[test]
fn all_paths_are_admitted_or_the_first_refusal_is_told() {
    let paths = strings(&["/a", "/b", "/c"]);
    let found = |dev: u64| Probe::Found { dev };
    let denied = || Probe::NoMetadata { cause: "denied".to_string() };
    let all = admit_paths(&paths, &vec![found(1), found(2), found(1)]);
    assert_eq!(all.unwrap(), vec![1, 2, 1]);
    let refusal = |probes: Vec<Probe>| admit_paths(&paths, &probes).unwrap_err().message();
    assert_eq!(refusal(vec![found(1), denied(), Probe::Missing]), "metadata error /b: denied");
    assert_eq!(refusal(vec![found(1), found(1), Probe::Missing]), "Path not found: /c");
    assert_eq!(refusal(vec![Probe::Missing]), "Path not found: /a");
    assert!(admit_paths(&vec![], &vec![]).unwrap().is_empty());
}

#[test]
fn paths_are_looked_at_up_to_the_first_refusal() {
    assert!(goes_on(&Probe::Found { dev: 0 }));
    assert!(!goes_on(&Probe::Missing));
    assert!(!goes_on(&Probe::Unresolved { cause: String::new() }));
    assert!(!goes_on(&Probe::NoMetadata { cause: String::new() }));
}

#[test]
fn a_lost_table_is_told_unless_failures_are() {
    assert_eq!(lost_results(vec![]).message(), "result lock poisoned");
    assert_eq!(lost_results(strings(&["a", "b"])).message(), "a; b");
}

#[test]
fn the_rows_of_a_job_are_told_as_they_are_recorded() {
    let paths = strings(&["x", "y", "z"]);
    let found = vec![totals(30), totals(10)];
    let mut table = ResultTable::new(3);
    let (told, event) = deliver(&mut table, &job(&[2, 0]), &found, &paths, &[Ok(()), Ok(())]);
    assert_eq!(told, vec![(2, "z".to_string(), 30), (0, "x".to_string(), 10)]);
    assert!(matches!(event, WorkerEvent::Delivered));
    record(&mut table, &job(&[1]), &vec![totals(20)], &paths);
    let rows = table.finish(vec![]).unwrap();
    for (m, path, kb) in told {
        assert_eq!((&rows[m].path, rows[m].totals), (&path, totals(kb)));
    }
}

#[test]
fn nothing_is_recorded_after_the_first_refusal() {
    let paths = strings(&["x", "y", "z"]);
    let found = vec![totals(10), totals(20), totals(30)];
    let refused = || Err("ValueError: no".to_string());
    let mut table = ResultTable::new(3);
    let answers = [Ok(()), refused(), refused()];
    let (told, event) = deliver(&mut table, &job(&[0, 1, 2]), &found, &paths, &answers);
    assert_eq!(told, vec![(0, "x".to_string(), 10), (1, "y".to_string(), 20)]);
    assert_eq!(event.report(), Some("ValueError: no".to_string()));
    assert!(matches!(event, WorkerEvent::CallbackFailed { .. }));
    assert!(matches!(table.finish(vec![]), Err(ScanError::MissingResult { index: 2 })));
}

#[test]
fn a_job_without_results_is_delivered() {
    assert!(matches!(first_notice(0), Notice::Over { event: WorkerEvent::Delivered }));
    assert!(matches!(first_notice(1), Notice::Tell { position: 0 }));
    assert!(matches!(next_notice(0, 2, Ok(())), Notice::Tell { position: 1 }));
    assert!(matches!(
        next_notice(1, 2, Ok(())),
        Notice::Over { event: WorkerEvent::Delivered }
    ));
}
