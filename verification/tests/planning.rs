use rust_scanner::dir_scan::ScanTotals;
use rust_scanner::entry::EntryKind;
use rust_scanner::grouping::group_paths;
use rust_scanner::jobs::plan_jobs;
use rust_scanner::order::{order_by_key, order_by_key_descending};
use rust_scanner::path::{is_parent_or_same, Component, ScanPath};
use rust_scanner::results::ResultTable;
use rust_scanner::threads::{allot_threads, sum_weights};
use rust_scanner::weight::{estimate_path_weight, MAX_SAMPLE_ENTRIES};
use rust_scanner::workers::{default_workers, resolve_workers, worker_count};

fn path(names: &[&str]) -> ScanPath {
    let mut components = vec![Component::RootDir];
    for name in names {
        components.push(Component::Normal(name.as_bytes().to_vec()));
    }
    ScanPath { components }
}

#[test]
fn orders_are_those_of_a_stable_sort() {
    let keys: Vec<u64> = vec![3, 1, 2, 3, 1, 0, u64::MAX, 2, 3];
    let mut ascending: Vec<usize> = (0..keys.len()).collect();
    ascending.sort_by_key(|&k| keys[k]);
    assert_eq!(order_by_key(&keys), ascending);
    assert_eq!(order_by_key(&keys), vec![5, 1, 4, 2, 7, 0, 3, 8, 6]);
    let mut descending: Vec<usize> = (0..keys.len()).collect();
    descending.sort_by(|&a, &b| keys[b].cmp(&keys[a]));
    assert_eq!(order_by_key_descending(&keys), descending);
    assert_eq!(order_by_key_descending(&keys), vec![6, 0, 3, 8, 2, 7, 1, 4, 5]);
    assert!(order_by_key(&vec![]).is_empty());
}

#[test]
fn nested_paths_share_a_group() {
    let paths = vec![
        path(&["a", "b", "c"]),
        path(&["a"]),
        path(&["d"]),
        path(&["a", "b"]),
        path(&["d", "e"]),
    ];
    assert_eq!(group_paths(&paths, &vec![1; 5]), vec![vec![1, 3, 0], vec![2, 4]]);
}

#[test]
fn another_device_makes_another_group() {
    let paths = vec![path(&["a"]), path(&["a", "b"]), path(&["a", "b", "c"]), path(&["a", "d"])];
    assert_eq!(group_paths(&paths, &vec![1, 2, 1, 2]), vec![vec![0, 2], vec![1], vec![3]]);
    assert_eq!(group_paths(&paths, &vec![1, 2, 2, 2]), vec![vec![0], vec![1, 2], vec![3]]);
}

#[test]
fn the_same_path_twice_is_one_group() {
    let paths = vec![path(&["a"]), path(&["b"]), path(&["a"])];
    assert_eq!(group_paths(&paths, &vec![1; 3]), vec![vec![0, 2], vec![1]]);
}

#[test]
fn the_root_directory_takes_everything() {
    let paths = vec![path(&["x", "y"]), path(&[]), path(&["z"])];
    assert_eq!(group_paths(&paths, &vec![1; 3]), vec![vec![1, 2, 0]]);
}

#[test]
fn no_paths_make_no_groups() {
    assert!(group_paths(&vec![], &vec![]).is_empty());
}

#[test]
fn every_path_is_in_one_group_and_roots_do_not_nest() {
    let paths = vec![
        path(&["a", "x"]),
        path(&["b"]),
        path(&["a"]),
        path(&["ab"]),
        path(&["b", "c", "d"]),
        path(&["a", "x", "y"]),
        path(&["b", "c"]),
    ];
    let devices = vec![1, 1, 2, 1, 2, 1, 2];
    let groups = group_paths(&paths, &devices);
    let mut listed: Vec<usize> = groups.iter().flatten().copied().collect();
    listed.sort();
    assert_eq!(listed, (0..paths.len()).collect::<Vec<_>>());
    for group in &groups {
        for &m in group {
            assert!(is_parent_or_same(&paths[group[0]], &paths[m]));
            assert_eq!(devices[group[0]], devices[m]);
        }
        for other in &groups {
            if group[0] != other[0] && devices[group[0]] == devices[other[0]] {
                assert!(!is_parent_or_same(&paths[group[0]], &paths[other[0]]));
            }
        }
    }
}

#[test]
fn weights_add_up() {
    let listing = vec![
        EntryKind::Dir,
        EntryKind::File,
        EntryKind::Symlink,
        EntryKind::Unknown,
        EntryKind::Other,
        EntryKind::File,
    ];
    assert_eq!(estimate_path_weight(3, Some(8), Some(&listing)), 3_244_096);
    assert_eq!(estimate_path_weight(3, None, Some(&listing)), 3_240_000);
    assert_eq!(estimate_path_weight(3, Some(8), None), 3_004_096);
    assert_eq!(estimate_path_weight(1, None, None), 1_000_000);
    assert_eq!(estimate_path_weight(0, None, Some(&vec![])), 0);
}

#[test]
fn only_a_sample_is_weighed() {
    let mut listing = vec![EntryKind::Dir; MAX_SAMPLE_ENTRIES];
    assert_eq!(estimate_path_weight(0, None, Some(&listing)), 819_200_000);
    listing.push(EntryKind::Dir);
    listing.push(EntryKind::File);
    assert_eq!(estimate_path_weight(0, None, Some(&listing)), 819_200_000);
}

#[test]
fn weights_saturate() {
    assert_eq!(estimate_path_weight(1, Some(u64::MAX), None), u64::MAX);
    assert_eq!(estimate_path_weight(usize::MAX, None, Some(&vec![EntryKind::File])), u64::MAX);
}

#[test]
fn a_larger_group_weighs_no_less() {
    assert_eq!(
        estimate_path_weight(7, Some(1), None) - estimate_path_weight(2, Some(1), None),
        5_000_000
    );
    assert_eq!(
        estimate_path_weight(2, Some(u64::MAX), None),
        estimate_path_weight(3, Some(u64::MAX), None)
    );
}

#[test]
fn spare_threads_follow_the_weights() {
    assert_eq!(allot_threads(&vec![60, 30, 10], 13), vec![7, 4, 2]);
    assert_eq!(allot_threads(&vec![1, 1, 1], 8), vec![3, 3, 2]);
    assert_eq!(allot_threads(&vec![0, 0], 5), vec![3, 2]);
    assert_eq!(allot_threads(&vec![u64::MAX], 32), vec![32]);
}

#[test]
fn without_spare_threads_each_job_has_one() {
    assert_eq!(allot_threads(&vec![5, 4, 3], 3), vec![1, 1, 1]);
    assert_eq!(allot_threads(&vec![5, 4, 3], 1), vec![1, 1, 1]);
    assert_eq!(allot_threads(&vec![u64::MAX, u64::MAX], 2), vec![1, 1]);
    assert!(allot_threads(&vec![], 7).is_empty());
}

#[test]
fn every_worker_is_used() {
    for total in 4..40 {
        let threads = allot_threads(&vec![977, 310, 55, 0], total);
        assert_eq!(threads.iter().sum::<usize>(), total);
        assert!(threads.windows(2).all(|w| w[0] >= w[1] && w[1] >= 1));
    }
}

#[test]
fn weights_are_summed_as_long_as_they_fit() {
    assert_eq!(sum_weights(&vec![5, 0, 7]), Some(13));
    assert_eq!(sum_weights(&vec![]), Some(0));
    assert_eq!(sum_weights(&vec![u64::MAX - 1, 0]), Some(u64::MAX));
    assert_eq!(sum_weights(&vec![u64::MAX, 0]), None);
}

#[test]
fn jobs_come_heaviest_first() {
    let groups = vec![vec![4], vec![1, 3], vec![0], vec![2, 5]];
    let jobs = plan_jobs(&groups, &vec![10, 70, 10, 10], 14);
    let order: Vec<usize> = jobs.iter().map(|j| j.root).collect();
    assert_eq!(order, vec![1, 4, 0, 2]);
    assert_eq!(jobs[0].indexes, vec![1, 3]);
    assert_eq!(jobs[3].indexes, vec![2, 5]);
    assert_eq!(jobs.iter().map(|j| j.weight).collect::<Vec<_>>(), vec![70, 10, 10, 10]);
    assert_eq!(jobs.iter().map(|j| j.threads).collect::<Vec<_>>(), vec![8, 2, 2, 2]);
}

#[test]
fn a_plan_uses_every_worker_and_holds_every_path_once() {
    let paths = vec![path(&["a", "b"]), path(&["c"]), path(&["a"]), path(&["d"])];
    let groups = group_paths(&paths, &vec![1; 4]);
    let weights: Vec<u64> = groups.iter().map(|g| estimate_path_weight(g.len(), None, None)).collect();
    let jobs = plan_jobs(&groups, &weights, 10);
    assert_eq!(jobs.iter().map(|j| j.threads).sum::<usize>(), 10);
    assert_eq!(jobs[0].indexes, vec![2, 0]);
    let mut listed: Vec<usize> = jobs.iter().flat_map(|j| j.indexes.clone()).collect();
    listed.sort();
    assert_eq!(listed, vec![0, 1, 2, 3]);
    let few = plan_jobs(&groups, &weights, 2);
    assert_eq!(few.iter().map(|j| j.threads).sum::<usize>(), 3);
}

#[test]
fn default_workers_are_twice_the_processors_within_limits() {
    assert_eq!(default_workers(None), 4);
    assert_eq!(default_workers(Some(0)), 4);
    assert_eq!(default_workers(Some(1)), 4);
    assert_eq!(default_workers(Some(2)), 4);
    assert_eq!(default_workers(Some(3)), 6);
    assert_eq!(default_workers(Some(16)), 32);
    assert_eq!(default_workers(Some(17)), 32);
    assert_eq!(default_workers(Some(usize::MAX / 2)), 32);
}

#[test]
fn the_caller_may_choose_the_workers() {
    assert_eq!(resolve_workers(None, 6), 6);
    assert_eq!(resolve_workers(None, 0), 1);
    assert_eq!(resolve_workers(Some(0), 6), 1);
    assert_eq!(resolve_workers(Some(100), 6), 100);
}

#[test]
fn no_more_workers_than_jobs() {
    assert_eq!(worker_count(8, 3), 3);
    assert_eq!(worker_count(2, 3), 2);
    assert_eq!(worker_count(2, 0), 1);
    assert_eq!(worker_count(0, 3), 1);
}

#[test]
fn a_recorded_plan_is_complete() {
    let paths = vec![path(&["a", "b"]), path(&["c"]), path(&["a"]), path(&["c", "d"])];
    let names: Vec<String> = ["/a/b", "/c", "/a", "/c/d"].iter().map(|n| n.to_string()).collect();
    let groups = group_paths(&paths, &vec![1, 1, 1, 2]);
    let jobs = plan_jobs(&groups, &vec![5; groups.len()], 4);
    let mut table = ResultTable::new(paths.len());
    for job in jobs.iter().rev() {
        let totals: Vec<ScanTotals> = job
            .indexes
            .iter()
            .map(|&m| ScanTotals { kb: m as u64, skipped_perm: 0, skipped_cross_dev: 0 })
            .collect();
        for position in 0..totals.len() {
            table.record_result(job, &totals, &names, position);
        }
    }
    let rows = table.finish(vec![]).unwrap();
    for (m, row) in rows.iter().enumerate() {
        assert_eq!(row.path, names[m]);
        assert_eq!(row.totals.kb, m as u64);
    }
    assert_eq!(rows.len(), 4);
}
