use rust_scanner::dir_scan::{DirScan, ScanTotals};
use rust_scanner::entry::{EntryKind, FileMeta, Screening, WalkAction, WalkEvent};
use rust_scanner::group_scan::{matched_targets, screen_group_entry, GroupScan};
use rust_scanner::path::{is_parent_or_same, Component, ScanPath};

fn path(names: &[&str]) -> ScanPath {
    let mut components = vec![Component::RootDir];
    for name in names {
        components.push(Component::Normal(name.as_bytes().to_vec()));
    }
    ScanPath { components }
}

fn entry(kind: EntryKind, names: &[&str], meta: Option<FileMeta>) -> WalkEvent {
    WalkEvent::Entry { kind, path: path(names), meta }
}

fn meta(dev: u64, ino: u64, nlink: u64, blocks: u64) -> Option<FileMeta> {
    Some(FileMeta { dev, ino, nlink, blocks })
}

fn totals(kb: u64, skipped_perm: u64, skipped_cross_dev: u64) -> ScanTotals {
    ScanTotals { kb, skipped_perm, skipped_cross_dev }
}

/// `/r`, `/r/a` and `/r/b`.
fn targets() -> Vec<ScanPath> {
    vec![path(&["r"]), path(&["r", "a"]), path(&["r", "b"])]
}

#[test]
fn targets_are_matched_by_prefix() {
    assert_eq!(matched_targets(&targets(), &path(&["r"])), vec![0]);
    assert_eq!(matched_targets(&targets(), &path(&["r", "b", "x"])), vec![0, 2]);
    assert_eq!(matched_targets(&targets(), &path(&["r", "ab"])), vec![0]);
    assert!(matched_targets(&targets(), &path(&["q"])).is_empty());
}

#[test]
fn entries_outside_of_all_targets_are_passed_over() {
    let outside = path(&["q", "proc"]);
    assert_eq!(
        screen_group_entry(&targets(), EntryKind::Dir, &outside),
        Screening::Settled(WalkAction::Continue)
    );
    assert_eq!(
        screen_group_entry(&targets(), EntryKind::Dir, &path(&["r", "proc"])),
        Screening::Settled(WalkAction::Skip)
    );
    assert_eq!(
        screen_group_entry(&targets(), EntryKind::File, &path(&["r", "f"])),
        Screening::NeedsMetadata
    );
    let mut scan = GroupScan::new(1, targets());
    assert_eq!(scan.step(&entry(EntryKind::File, &["q"], meta(1, 1, 1, 8))), WalkAction::Continue);
    assert_eq!(scan.step(&entry(EntryKind::Dir, &["q"], None)), WalkAction::Continue);
    assert_eq!(scan.totals(), vec![totals(0, 0, 0); 3]);
}

#[test]
fn a_file_counts_for_each_target_above_it() {
    let mut scan = GroupScan::new(1, targets());
    scan.step(&entry(EntryKind::File, &["r", "f"], meta(1, 1, 1, 2)));
    scan.step(&entry(EntryKind::File, &["r", "a", "f"], meta(1, 2, 1, 4)));
    scan.step(&entry(EntryKind::File, &["r", "b", "f"], meta(2, 3, 1, 8)));
    assert_eq!(scan.totals(), vec![totals(3, 0, 0), totals(2, 0, 0), totals(0, 0, 0)]);
}

#[test]
fn a_linked_file_counts_once_for_each_target() {
    let mut scan = GroupScan::new(1, targets());
    scan.step(&entry(EntryKind::File, &["r", "a", "f"], meta(1, 9, 3, 4)));
    scan.step(&entry(EntryKind::File, &["r", "a", "g"], meta(1, 9, 3, 4)));
    scan.step(&entry(EntryKind::File, &["r", "b", "h"], meta(1, 9, 3, 4)));
    assert_eq!(scan.totals(), vec![totals(2, 0, 0), totals(2, 0, 0), totals(2, 0, 0)]);
}

#[test]
fn unreadable_entries_count_where_they_lie() {
    let mut scan = GroupScan::new(1, targets());
    assert_eq!(scan.step(&WalkEvent::Unreadable), WalkAction::Continue);
    assert_eq!(scan.step(&entry(EntryKind::Dir, &["r", "a", "d"], None)), WalkAction::Skip);
    assert_eq!(scan.step(&entry(EntryKind::File, &["r", "b", "f"], None)), WalkAction::Continue);
    assert_eq!(scan.totals(), vec![totals(0, 3, 0), totals(0, 2, 0), totals(0, 2, 0)]);
}

#[test]
fn directories_are_shared_by_the_targets() {
    let mut scan = GroupScan::new(1, targets());
    let step = |scan: &mut GroupScan, names: &[&str], dev: u64| {
        scan.step(&entry(EntryKind::Dir, names, meta(dev, 5, 2, 8)))
    };
    assert_eq!(step(&mut scan, &["r", "a", "m"], 2), WalkAction::Skip);
    assert_eq!(step(&mut scan, &["r", "b", "m"], 2), WalkAction::Skip);
    assert_eq!(step(&mut scan, &["r", "a", "n"], 1), WalkAction::Continue);
    assert_eq!(step(&mut scan, &["r", "b", "n"], 1), WalkAction::Skip);
    assert_eq!(scan.totals(), vec![totals(0, 0, 1), totals(0, 0, 1), totals(0, 0, 0)]);
}

#[test]
fn counters_wrap_around() {
    let mut scan = GroupScan::new(1, targets());
    scan.step(&entry(EntryKind::File, &["r", "a", "f"], meta(1, 1, 1, u64::MAX)));
    scan.step(&entry(EntryKind::File, &["r", "f"], meta(1, 2, 1, 4)));
    assert_eq!(
        scan.totals(),
        vec![totals(2047 / 1024, 0, 0), totals(u64::MAX / 1024, 0, 0), totals(0, 0, 0)]
    );
}

fn mixed_events() -> Vec<WalkEvent> {
    vec![
        entry(EntryKind::Dir, &["r"], meta(1, 100, 2, 8)),
        entry(EntryKind::File, &["r", "a", "f"], meta(1, 9, 2, 4)),
        WalkEvent::Unreadable,
        entry(EntryKind::Dir, &["r", "a", "m"], meta(3, 5, 2, 8)),
        entry(EntryKind::File, &["r", "b", "f"], meta(1, 9, 2, 4)),
        entry(EntryKind::File, &["r", "b", "g"], meta(1, 10, 1, 6)),
        entry(EntryKind::Symlink, &["r", "b", "s"], None),
        entry(EntryKind::File, &["r", "h"], None),
        entry(EntryKind::Dir, &["r", "b", "dev"], None),
    ]
}

#[test]
fn each_target_is_counted_like_a_scan_of_its_own() {
    let mut shared = GroupScan::new(1, targets());
    for event in mixed_events() {
        shared.step(&event);
    }
    for (k, target) in targets().iter().enumerate() {
        let mut own = DirScan::new(Some(1));
        for event in mixed_events() {
            let concerned = match &event {
                WalkEvent::Unreadable => true,
                WalkEvent::Entry { path, .. } => is_parent_or_same(target, path),
            };
            if concerned {
                own.step(&event);
            }
        }
        assert_eq!(shared.totals()[k], own.totals());
    }
    assert_eq!(shared.totals(), vec![totals(5, 2, 1), totals(2, 1, 1), totals(5, 1, 0)]);
}

#[test]
fn the_order_of_shared_reports_does_not_matter() {
    let events = mixed_events();
    let mut forward = GroupScan::new(1, targets());
    let mut backward = GroupScan::new(1, targets());
    for event in &events {
        forward.step(event);
    }
    for event in events.iter().rev() {
        backward.step(event);
    }
    assert_eq!(forward.totals(), backward.totals());
}

#[test]
fn a_scan_without_targets_has_no_results() {
    let mut scan = GroupScan::new(1, vec![]);
    scan.step(&WalkEvent::Unreadable);
    scan.step(&entry(EntryKind::File, &["r"], meta(1, 1, 1, 1)));
    assert!(scan.totals().is_empty());
}

#[test]
fn a_shared_scan_opens_where_the_root_is_known() {
    let root = "\"/r\"".to_string();
    let mut scan = GroupScan::open(&root, Ok(1), targets()).ok().unwrap();
    scan.step(&entry(EntryKind::File, &["r", "b", "f"], meta(1, 10, 1, 8)));
    scan.step(&entry(EntryKind::File, &["r", "b", "g"], meta(2, 11, 1, 8)));
    assert_eq!(scan.totals(), vec![totals(4, 0, 0), totals(0, 0, 0), totals(4, 0, 0)]);
    let refusal = GroupScan::open(&root, Err("denied".to_string()), targets()).err().unwrap();
    assert_eq!(refusal.message(), "metadata error \"/r\": denied");
}
