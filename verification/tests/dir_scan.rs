use rust_scanner::dir_scan::{DirScan, ScanTotals};
use rust_scanner::entry::{
    screen_entry, EntryKind, FileMeta, Screening, WalkAction, WalkEvent,
};
use rust_scanner::path::{Component, ScanPath};

fn path(names: &[&str]) -> ScanPath {
    let mut components = vec![Component::RootDir];
    for name in names {
        components.push(Component::Normal(name.as_bytes().to_vec()));
    }
    ScanPath { components }
}

fn entry(kind: EntryKind, names: &[&str], meta: Option<FileMeta>) -> WalkEvent {
    WalkEvent::Entry { kind, path: path(names), meta }
}

fn meta(dev: u64, ino: u64, nlink: u64, blocks: u64) -> Option<FileMeta> {
    Some(FileMeta { dev, ino, nlink, blocks })
}

fn totals(kb: u64, skipped_perm: u64, skipped_cross_dev: u64) -> ScanTotals {
    ScanTotals { kb, skipped_perm, skipped_cross_dev }
}

fn run(root_dev: Option<u64>, events: &[WalkEvent]) -> ScanTotals {
    let mut scan = DirScan::new(root_dev);
    for event in events {
        scan.step(event);
    }
    scan.totals()
}

#[test]
fn a_new_scan_is_empty() {
    assert_eq!(DirScan::new(Some(1)).totals(), totals(0, 0, 0));
}

#[test]
fn files_add_their_blocks_and_kilobytes_round_down() {
    let events = [
        entry(EntryKind::File, &["a"], meta(1, 10, 1, 8)),
        entry(EntryKind::File, &["b"], meta(1, 11, 0, 3)),
    ];
    assert_eq!(run(Some(1), &events), totals(5, 0, 0));
}

#[test]
fn a_file_with_one_link_counts_each_time() {
    let file = entry(EntryKind::File, &["a"], meta(1, 10, 1, 2));
    assert_eq!(run(Some(1), &[file.clone(), file]), totals(2, 0, 0));
}

#[test]
fn a_file_with_several_links_counts_once() {
    let events = [
        entry(EntryKind::File, &["a"], meta(1, 10, 2, 4)),
        entry(EntryKind::File, &["x"], meta(1, 11, 1, 2)),
        entry(EntryKind::File, &["b"], meta(1, 10, 2, 4)),
    ];
    assert_eq!(run(Some(1), &events), totals(3, 0, 0));
}

#[test]
fn the_same_inode_on_two_devices_is_two_files() {
    let events = [
        entry(EntryKind::File, &["a"], meta(1, 10, 2, 4)),
        entry(EntryKind::File, &["b"], meta(2, 10, 2, 4)),
    ];
    assert_eq!(run(None, &events), totals(4, 0, 0));
    assert_eq!(run(Some(1), &events), totals(2, 0, 0));
}

#[test]
fn a_directory_is_entered_once() {
    let mut scan = DirScan::new(Some(1));
    let first = entry(EntryKind::Dir, &["a"], meta(1, 5, 2, 8));
    let again = entry(EntryKind::Dir, &["b"], meta(1, 5, 2, 8));
    assert_eq!(scan.step(&first), WalkAction::Continue);
    assert_eq!(scan.step(&again), WalkAction::Skip);
    assert_eq!(scan.totals(), totals(0, 0, 0));
}

#[test]
fn a_directory_on_another_device_is_counted_once_and_left_out() {
    let mut scan = DirScan::new(Some(1));
    let mount = entry(EntryKind::Dir, &["mnt"], meta(2, 5, 2, 8));
    assert_eq!(scan.step(&mount), WalkAction::Skip);
    assert_eq!(scan.step(&mount), WalkAction::Skip);
    assert_eq!(scan.totals(), totals(0, 0, 1));
}

#[test]
fn without_a_known_device_every_directory_is_entered() {
    let mut scan = DirScan::new(None);
    let mount = entry(EntryKind::Dir, &["mnt"], meta(2, 5, 2, 8));
    assert_eq!(scan.step(&mount), WalkAction::Continue);
    assert_eq!(scan.totals(), totals(0, 0, 0));
}

#[test]
fn what_cannot_be_read_is_counted() {
    let mut scan = DirScan::new(Some(1));
    assert_eq!(scan.step(&WalkEvent::Unreadable), WalkAction::Continue);
    assert_eq!(scan.step(&entry(EntryKind::Dir, &["d"], None)), WalkAction::Skip);
    assert_eq!(scan.step(&entry(EntryKind::File, &["f"], None)), WalkAction::Continue);
    assert_eq!(scan.totals(), totals(0, 3, 0));
}

#[test]
fn critical_directories_are_left_out_without_a_trace() {
    let mut scan = DirScan::new(Some(1));
    assert_eq!(scan.step(&entry(EntryKind::Dir, &["a", ".zfs"], None)), WalkAction::Skip);
    assert_eq!(scan.step(&entry(EntryKind::Dir, &["proc"], meta(2, 1, 1, 1))), WalkAction::Skip);
    assert_eq!(scan.totals(), totals(0, 0, 0));
}

#[test]
fn other_kinds_are_passed_over() {
    let mut scan = DirScan::new(Some(1));
    for kind in [EntryKind::Unknown, EntryKind::Symlink, EntryKind::Other] {
        let event = entry(kind, &["proc"], meta(1, 7, 1, 100));
        assert_eq!(scan.step(&event), WalkAction::Continue);
        assert_eq!(scan.step(&entry(kind, &["x"], None)), WalkAction::Continue);
    }
    assert_eq!(scan.totals(), totals(0, 0, 0));
}

#[test]
fn screening_asks_for_metadata_only_where_it_decides() {
    let settled = Screening::Settled;
    assert_eq!(screen_entry(EntryKind::Dir, &path(&["a"])), Screening::NeedsMetadata);
    assert_eq!(screen_entry(EntryKind::Dir, &path(&["sys"])), settled(WalkAction::Skip));
    assert_eq!(screen_entry(EntryKind::Dir, &path(&[])), Screening::NeedsMetadata);
    assert_eq!(screen_entry(EntryKind::File, &path(&["sys"])), Screening::NeedsMetadata);
    assert_eq!(screen_entry(EntryKind::Symlink, &path(&["sys"])), settled(WalkAction::Continue));
    assert_eq!(screen_entry(EntryKind::Unknown, &path(&["a"])), settled(WalkAction::Continue));
    assert_eq!(screen_entry(EntryKind::Other, &path(&["a"])), settled(WalkAction::Continue));
}

#[test]
fn block_counts_saturate_and_totals_wrap() {
    let huge = entry(EntryKind::File, &["a"], meta(1, 10, 1, u64::MAX));
    assert_eq!(run(Some(1), &[huge.clone()]), totals(u64::MAX / 1024, 0, 0));
    let small = entry(EntryKind::File, &["b"], meta(1, 11, 1, 4));
    assert_eq!(run(Some(1), &[huge, small]), totals(2047 / 1024, 0, 0));
}

#[test]
fn the_order_of_reports_does_not_matter() {
    let events = [
        entry(EntryKind::File, &["a"], meta(1, 10, 2, 4)),
        entry(EntryKind::Dir, &["m"], meta(2, 5, 2, 8)),
        WalkEvent::Unreadable,
        entry(EntryKind::File, &["b"], meta(1, 10, 2, 4)),
        entry(EntryKind::File, &["c"], meta(1, 12, 1, 6)),
        entry(EntryKind::Dir, &["n"], meta(2, 5, 2, 8)),
    ];
    let expected = totals(5, 1, 1);
    assert_eq!(run(Some(1), &events), expected);
    let mut turned = events.to_vec();
    turned.reverse();
    assert_eq!(run(Some(1), &turned), expected);
    for shift in 1..events.len() {
        let mut rotated = events.to_vec();
        rotated.rotate_left(shift);
        assert_eq!(run(Some(1), &rotated), expected);
    }
}

#[test]
fn a_scan_opens_where_something_is_there() {
    let path = "/data".to_string();
    let mut scan = DirScan::open(&path, true, Some(1)).ok().unwrap();
    scan.step(&entry(EntryKind::File, &["a"], meta(1, 10, 1, 8)));
    scan.step(&entry(EntryKind::File, &["b"], meta(2, 11, 1, 8)));
    assert_eq!(scan.totals(), totals(4, 0, 0));
    let mut scan = DirScan::open(&path, true, None).ok().unwrap();
    scan.step(&entry(EntryKind::File, &["b"], meta(2, 11, 1, 8)));
    assert_eq!(scan.totals(), totals(4, 0, 0));
    let refusal = DirScan::open(&path, false, None).err().unwrap();
    assert_eq!(refusal.message(), "Path not found: /data");
}
