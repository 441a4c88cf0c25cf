use rust_scanner::delivery::{first_notice, next_notice, Notice};
use rust_scanner::dir_scan::{DirScan, ScanTotals};
use rust_scanner::entry::{EntryKind, FileMeta, WalkAction, WalkEvent};
use rust_scanner::group_scan::GroupScan;
use rust_scanner::grouping::group_paths;
use rust_scanner::jobs::plan_jobs;
use rust_scanner::path::{is_parent_or_same, ScanPath};
use rust_scanner::results::ResultTable;

fn path(text: &str) -> ScanPath {
    ScanPath::from_bytes(text.as_bytes())
}

/// A small file system: directories, and files of several sizes, some of them linked.
fn entries() -> Vec<(&'static str, EntryKind, FileMeta)> {
    let dir = |ino: u64| FileMeta { dev: 1, ino, nlink: 2, blocks: 8 };
    let file = |ino: u64, nlink: u64, blocks: u64| FileMeta { dev: 1, ino, nlink, blocks };
    vec![
        ("/a", EntryKind::Dir, dir(1)),
        ("/a/f", EntryKind::File, file(2, 1, 2)),
        ("/a/b", EntryKind::Dir, dir(3)),
        ("/a/b/g", EntryKind::File, file(4, 2, 16)),
        ("/a/b/h", EntryKind::File, file(4, 2, 16)),
        ("/a/c", EntryKind::Dir, dir(5)),
        ("/a/c/g", EntryKind::File, file(4, 3, 16)),
        ("/d", EntryKind::Dir, dir(6)),
        ("/d/f", EntryKind::File, file(7, 1, 64)),
        ("/d/m", EntryKind::Dir, FileMeta { dev: 2, ino: 1, nlink: 2, blocks: 8 }),
    ]
}

/// What a walk from `root` reports.
fn reports(root: &ScanPath) -> Vec<WalkEvent> {
    entries()
        .into_iter()
        .map(|(text, kind, meta)| (path(text), kind, meta))
        .filter(|(place, _, _)| is_parent_or_same(root, place))
        .map(|(place, kind, meta)| WalkEvent::Entry { kind, path: place, meta: Some(meta) })
        .collect()
}

/// Scans the paths. Every other job is recorded late, and its walk reports backwards.
/// Returns the rows, and what the caller is told.
fn scan_and_tell(
    names: &[&str],
    total_workers: usize,
) -> (Vec<(String, ScanTotals)>, Vec<(usize, String, ScanTotals)>) {
    let texts: Vec<String> = names.iter().map(|n| n.to_string()).collect();
    let paths: Vec<ScanPath> = names.iter().map(|n| path(n)).collect();
    let groups = group_paths(&paths, &vec![1; paths.len()]);
    let weights: Vec<u64> = groups.iter().map(|g| g.len() as u64 * 1_000_000).collect();
    let jobs = plan_jobs(&groups, &weights, total_workers);
    let late = (0..jobs.len()).filter(|i| (i + total_workers) % 2 == 1);
    let turns: Vec<usize> =
        (0..jobs.len()).filter(|i| (i + total_workers) % 2 == 0).chain(late).collect();
    let mut table = ResultTable::new(paths.len());
    let mut told = vec![];
    for i in turns {
        let job = &jobs[i];
        let targets = job.indexes.iter().map(|&m| paths[m].clone()).collect();
        let mut walk = GroupScan::new(1, targets);
        let mut events = reports(&paths[job.root]);
        if (i + total_workers) % 2 == 1 {
            events.reverse();
        }
        for event in &events {
            walk.step(event);
        }
        let found = walk.totals();
        let mut notice = first_notice(found.len());
        while let Notice::Tell { position } = notice {
            let (m, row) = table.record_result(job, &found, &texts, position);
            told.push((m, row.path, row.totals));
            notice = next_notice(position, found.len(), Ok(()));
        }
    }
    let rows = table.finish(vec![]).unwrap();
    (rows.into_iter().map(|row| (row.path, row.totals)).collect(), told)
}

fn scan(names: &[&str], total_workers: usize) -> Vec<(String, ScanTotals)> {
    scan_and_tell(names, total_workers).0
}

const NAMES: [&str; 5] = ["/a/b", "/d", "/a", "/a/c", "/a/"];

fn kilobytes(kb: u64, skipped_cross_dev: u64) -> ScanTotals {
    ScanTotals { kb, skipped_perm: 0, skipped_cross_dev }
}

#[test]
fn each_row_shows_its_path_and_what_lies_under_it() {
    let expected = vec![
        ("/a/b".to_string(), kilobytes(8, 0)),
        ("/d".to_string(), kilobytes(32, 1)),
        ("/a".to_string(), kilobytes(9, 0)),
        ("/a/c".to_string(), kilobytes(8, 0)),
        ("/a/".to_string(), kilobytes(9, 0)),
    ];
    assert_eq!(scan(&NAMES, 1), expected);
}

#[test]
fn each_row_is_that_of_a_scan_of_its_own() {
    for (name, totals) in scan(&NAMES, 3) {
        let mut alone = DirScan::new(Some(1));
        for event in reports(&path(&name)) {
            let action = alone.step(&event);
            assert!(matches!(action, WalkAction::Continue | WalkAction::Skip));
        }
        assert_eq!(alone.totals(), totals, "{name}");
    }
}

#[test]
fn the_order_of_the_paths_only_orders_the_rows() {
    let rows = scan(&NAMES, 2);
    for order in [[4, 3, 2, 1, 0], [2, 0, 4, 1, 3], [1, 4, 0, 3, 2]] {
        let reordered: Vec<&str> = order.iter().map(|&m: &usize| NAMES[m]).collect();
        let expected: Vec<(String, ScanTotals)> =
            order.iter().map(|&m: &usize| rows[m].clone()).collect();
        assert_eq!(scan(&reordered, 2), expected);
    }
}

#[test]
fn the_number_of_workers_changes_no_row() {
    let rows = scan(&NAMES, 1);
    for total_workers in 2..20 {
        assert_eq!(scan(&NAMES, total_workers), rows);
    }
    let paths: Vec<ScanPath> = NAMES.iter().map(|n| path(n)).collect();
    let groups = group_paths(&paths, &vec![1; 5]);
    let few = plan_jobs(&groups, &vec![4, 1], 1);
    let many = plan_jobs(&groups, &vec![4, 1], 12);
    for (a, b) in few.iter().zip(&many) {
        assert_eq!((a.root, &a.indexes, a.weight), (b.root, &b.indexes, b.weight));
    }
    assert_eq!((few[0].threads, many[0].threads), (1, 9));
}

#[test]
fn each_path_is_told_once_and_before_those_under_it() {
    for total_workers in 1..6 {
        let (rows, told) = scan_and_tell(&NAMES, total_workers);
        let mut when = vec![None; NAMES.len()];
        for (s, (m, name, totals)) in told.iter().enumerate() {
            assert_eq!(when[*m], None);
            when[*m] = Some(s);
            assert_eq!(rows[*m], (name.clone(), *totals));
        }
        let when: Vec<usize> = when.into_iter().map(|s| s.unwrap()).collect();
        // `/a` before `/a/b`, `/a/c` and its own second request.
        assert!(when[2] < when[0] && when[2] < when[3] && when[2] < when[4]);
    }
}

#[test]
fn an_outer_row_shows_no_less_than_an_inner_one() {
    let rows = scan(&["/", "/d", "/a", "/a/c"], 2);
    let shown = |m: usize| {
        (rows[m].1.kb, rows[m].1.skipped_perm, rows[m].1.skipped_cross_dev)
    };
    assert_eq!([shown(0), shown(1), shown(2), shown(3)], [(41, 0, 1), (32, 0, 1), (9, 0, 0), (8, 0, 0)]);
    for (outer, inner) in [(0, 1), (0, 2), (0, 3), (2, 3)] {
        let (above, below) = (shown(outer), shown(inner));
        assert!(above.0 >= below.0 && above.1 >= below.1 && above.2 >= below.2);
    }
}

#[test]
fn a_directory_reports_no_less_than_one_under_it() {
    let totals_of = |root: &str| {
        let mut alone = DirScan::new(Some(1));
        for event in reports(&path(root)) {
            alone.step(&event);
        }
        alone.totals()
    };
    assert_eq!(totals_of("/a"), kilobytes(9, 0));
    assert_eq!(totals_of("/a/b"), kilobytes(8, 0));
    assert_eq!(totals_of("/"), kilobytes(41, 1));
}

#[test]
fn a_report_without_a_path_counts_for_every_target() {
    let mut walk = GroupScan::new(1, vec![path("/a"), path("/a/b")]);
    walk.step(&WalkEvent::Unreadable);
    let counts: Vec<u64> = walk.totals().iter().map(|t| t.skipped_perm).collect();
    assert_eq!(counts, vec![1, 1]);
}
