//! What one report of a walk changes, and what it makes the walk do.

use crate::accounting::dir_run;
use crate::dir_scan::{dir_start, dir_step, dir_totals, DirState};
use crate::entry::{
    law_only_critical_directories_are_left_out_by_name, screening, EntryKind, EventView, FileMeta,
    Screening, WalkAction,
};
use crate::group_scan::{
    group_screening, group_start, group_step, group_totals, lies_under, lies_under_some,
    path_views, GroupState,
};
use crate::path::{contains_path, ComponentView, ScanPath};
use crate::sharing::group_run;
use vstd::prelude::*;

verus! {

/// Whether `after` shows `more` more than `before`, on a counter of 64 bits.
pub open spec fn counts_up(before: u64, more: int, after: u64) -> bool {
    after == (before + more) % 0x1_0000_0000_0000_0000
}

/// A directory is entered just where its name is not critical, its metadata could be read,
/// it has not been reached before, and it does not lie on another device than the scanned
/// directory; whatever else its metadata says.
pub proof fn law_directory_is_entered(
    state: DirState,
    path: Seq<ComponentView>,
    meta: Option<FileMeta>,
)
    ensures
        dir_step(state, EventView::Entry { kind: EntryKind::Dir, path, meta }).1
            == WalkAction::Continue <==> {
            &&& screening(EntryKind::Dir, path) == Screening::NeedsMetadata
            &&& meta is Some
            &&& !state.seen_dirs.contains((meta->0.dev, meta->0.ino))
            &&& state.root_dev is Some ==> state.root_dev->0 == meta->0.dev
        },
{
    law_only_critical_directories_are_left_out_by_name(EntryKind::Dir, path);
}

/// A directory with a critical name changes nothing. Any other counts as unreadable where
/// its metadata could not be read; else it has been reached, and counts as one on another
/// device where it lies on one and had not been reached before. No directory adds bytes.
pub proof fn law_directory_is_counted(
    state: DirState,
    path: Seq<ComponentView>,
    meta: Option<FileMeta>,
)
    ensures
        ({
            let after = dir_step(state, EventView::Entry { kind: EntryKind::Dir, path, meta }).0;
            let judged = screening(EntryKind::Dir, path) == Screening::NeedsMetadata;
            let crosses = judged && meta is Some && !state.seen_dirs.contains(
                (meta->0.dev, meta->0.ino),
            ) && state.root_dev is Some && state.root_dev->0 != meta->0.dev;
            &&& after.root_dev == state.root_dev
            &&& after.total_bytes == state.total_bytes
            &&& after.seen_inodes == state.seen_inodes
            &&& counts_up(
                state.skipped_perm,
                if judged && meta is None {
                    1
                } else {
                    0
                },
                after.skipped_perm,
            )
            &&& counts_up(
                state.skipped_cross_dev,
                if crosses {
                    1
                } else {
                    0
                },
                after.skipped_cross_dev,
            )
            &&& forall|dev: u64, ino: u64| #[trigger]
                after.seen_dirs.contains((dev, ino)) <==> state.seen_dirs.contains((dev, ino)) || (
                judged && meta is Some && meta->0.dev == dev && meta->0.ino == ino)
        }),
{
}

/// A file adds 512 bytes for each of its blocks where it does not lie on another device
/// than the scanned directory, and has one link or has not been counted before. One whose
/// metadata could not be read counts as unreadable. The walk goes on in any case.
pub proof fn law_file_is_counted(
    state: DirState,
    path: Seq<ComponentView>,
    meta: Option<FileMeta>,
)
    ensures
        ({
            let (after, action) = dir_step(
                state,
                EventView::Entry { kind: EntryKind::File, path, meta },
            );
            let here = meta is Some && (state.root_dev is Some ==> state.root_dev->0
                == meta->0.dev);
            let linked = here && meta->0.nlink >= 2;
            let counts = here && !(linked && state.seen_inodes.contains(
                (meta->0.dev, meta->0.ino),
            ));
            &&& action == WalkAction::Continue
            &&& after.root_dev == state.root_dev
            &&& after.seen_dirs == state.seen_dirs
            &&& after.skipped_cross_dev == state.skipped_cross_dev
            &&& counts_up(
                state.skipped_perm,
                if meta is None {
                    1
                } else {
                    0
                },
                after.skipped_perm,
            )
            &&& !counts ==> after.total_bytes == state.total_bytes
            &&& counts && meta->0.blocks * 512 <= u64::MAX ==> counts_up(
                state.total_bytes,
                meta->0.blocks * 512,
                after.total_bytes,
            )
            &&& counts && meta->0.blocks * 512 > u64::MAX ==> counts_up(
                state.total_bytes,
                u64::MAX as int,
                after.total_bytes,
            )
            &&& forall|dev: u64, ino: u64| #[trigger]
                after.seen_inodes.contains((dev, ino)) <==> state.seen_inodes.contains((dev, ino))
                    || (linked && meta->0.dev == dev && meta->0.ino == ino)
        }),
{
}

/// A report without a path counts as unreadable, and does nothing else. Links, sockets,
/// pipes, devices and what the walk could not tell change nothing. The walk goes on.
pub proof fn law_other_reports_are_passed_over(state: DirState, event: EventView)
    requires
        event matches EventView::Entry { kind, .. } ==> kind != EntryKind::Dir && kind
            != EntryKind::File,
    ensures
        dir_step(state, event).1 == WalkAction::Continue,
        counts_up(
            state.skipped_perm,
            if event is Unreadable {
                1
            } else {
                0
            },
            dir_step(state, event).0.skipped_perm,
        ),
        dir_step(state, event).0 == (DirState {
            skipped_perm: dir_step(state, event).0.skipped_perm,
            ..state
        }),
{
}

/// A scan starts with nothing counted and nothing reached.
pub proof fn law_scan_starts_from_nothing(root_dev: Option<u64>)
    ensures
        dir_start(root_dev).root_dev == root_dev,
        dir_start(root_dev).total_bytes == 0,
        dir_start(root_dev).skipped_perm == 0,
        dir_start(root_dev).skipped_cross_dev == 0,
        forall|dev: u64, ino: u64|
            !(#[trigger] dir_start(root_dev).seen_inodes.contains((dev, ino))),
        forall|dev: u64, ino: u64| !(#[trigger] dir_start(root_dev).seen_dirs.contains((dev, ino))),
        dir_run(dir_start(root_dev), Seq::empty()) == dir_start(root_dev),
{
}

/// Reports are taken in one after the other.
pub proof fn law_reports_are_taken_in_turn(state: DirState, events: Seq<EventView>, last: EventView)
    ensures
        dir_run(state, events.push(last)) == dir_step(dir_run(state, events), last).0,
{
    assert(events.push(last).drop_last() =~= events);
}

/// A result shows whole kilobytes of 1024 bytes, rounded down, and the counts as they are.
pub proof fn law_result_shows_whole_kilobytes(state: DirState)
    ensures
        dir_totals(state).kb * 1024 <= state.total_bytes < (dir_totals(state).kb + 1) * 1024,
        dir_totals(state).skipped_perm == state.skipped_perm,
        dir_totals(state).skipped_cross_dev == state.skipped_cross_dev,
{
}

/// Whether a report is of a directory that is not left out for its name and whose metadata
/// gives this device and this inode.
pub open spec fn reports_directory(event: EventView, dev: u64, ino: u64) -> bool {
    &&& event is Entry
    &&& event->kind == EntryKind::Dir
    &&& screening(EntryKind::Dir, event->path) == Screening::NeedsMetadata
    &&& event->meta is Some
    &&& event->meta->0.dev == dev
    &&& event->meta->0.ino == ino
}

/// Whether one of the reports is of this directory.
pub open spec fn directory_reported(events: Seq<EventView>, dev: u64, ino: u64) -> bool {
    exists|j: int| 0 <= j < events.len() && #[trigger] reports_directory(events[j], dev, ino)
}

proof fn lemma_reported_next(events: Seq<EventView>, event: EventView, dev: u64, ino: u64)
    ensures
        directory_reported(events.push(event), dev, ino) <==> directory_reported(events, dev, ino)
            || reports_directory(event, dev, ino),
{
    let longer = events.push(event);
    if directory_reported(events, dev, ino) {
        let j = choose|j: int|
            0 <= j < events.len() && #[trigger] reports_directory(events[j], dev, ino);
        assert(reports_directory(longer[j], dev, ino));
    }
    if reports_directory(event, dev, ino) {
        assert(reports_directory(longer[events.len() as int], dev, ino));
    }
    if directory_reported(longer, dev, ino) {
        let j = choose|j: int|
            0 <= j < longer.len() && #[trigger] reports_directory(longer[j], dev, ino);
        if j < events.len() {
            assert(reports_directory(events[j], dev, ino));
        }
    }
}

proof fn lemma_reached(root_dev: Option<u64>, events: Seq<EventView>)
    ensures
        dir_run(dir_start(root_dev), events).root_dev == root_dev,
        forall|dev: u64, ino: u64| #[trigger]
            dir_run(dir_start(root_dev), events).seen_dirs.contains((dev, ino))
                <==> directory_reported(events, dev, ino),
    decreases events.len(),
{
    if events.len() > 0 {
        let rest = events.drop_last();
        let event = events.last();
        lemma_reached(root_dev, rest);
        assert(events =~= rest.push(event));
        law_reports_are_taken_in_turn(dir_start(root_dev), rest, event);
        let before = dir_run(dir_start(root_dev), rest);
        assert forall|dev: u64, ino: u64| #[trigger]
            dir_run(dir_start(root_dev), events).seen_dirs.contains((dev, ino))
                <==> directory_reported(events, dev, ino) by {
            lemma_reported_next(rest, event, dev, ino);
            assert(before.seen_dirs.contains((dev, ino)) <==> directory_reported(rest, dev, ino));
            if let EventView::Entry { kind, path, meta } = event {
                if kind == EntryKind::Dir {
                    law_directory_is_counted(before, path, meta);
                } else if kind == EntryKind::File {
                    law_file_is_counted(before, path, meta);
                }
            }
        }
        if let EventView::Entry { kind, path, meta } = event {
            if kind == EntryKind::Dir {
                law_directory_is_counted(before, path, meta);
            } else if kind == EntryKind::File {
                law_file_is_counted(before, path, meta);
            }
        }
    }
}

/// On a whole walk a directory is left out only where its name is critical, its metadata
/// could not be read, it was reported before, or it lies on another device.
pub proof fn law_walk_leaves_a_directory_out_for_a_reason(
    root_dev: Option<u64>,
    events: Seq<EventView>,
    path: Seq<ComponentView>,
    meta: Option<FileMeta>,
)
    ensures
        dir_step(
            dir_run(dir_start(root_dev), events),
            EventView::Entry { kind: EntryKind::Dir, path, meta },
        ).1 == WalkAction::Skip <==> {
            ||| screening(EntryKind::Dir, path) == Screening::Settled(WalkAction::Skip)
            ||| meta is None
            ||| directory_reported(events, meta->0.dev, meta->0.ino)
            ||| root_dev is Some && root_dev->0 != meta->0.dev
        },
{
    lemma_reached(root_dev, events);
    law_directory_is_entered(dir_run(dir_start(root_dev), events), path, meta);
    law_only_critical_directories_are_left_out_by_name(EntryKind::Dir, path);
}

/// Whether a path lies under one of the targets, or is one.
pub open spec fn is_wanted(targets: Seq<Seq<ComponentView>>, path: Seq<ComponentView>) -> bool {
    exists|k: int| 0 <= k < targets.len() && contains_path(#[trigger] targets[k], path)
}

proof fn lemma_wanted(targets: Seq<Seq<ComponentView>>, path: Seq<ComponentView>)
    ensures
        lies_under_some(targets, path) <==> is_wanted(targets, path),
{
    if is_wanted(targets, path) {
        let k = choose|k: int| 0 <= k < targets.len() && contains_path(#[trigger] targets[k], path);
        assert(lies_under(targets, k, path));
    }
    if lies_under_some(targets, path) {
        let k = choose|k: int| 0 <= k < targets.len() && #[trigger] lies_under(targets, k, path);
        assert(contains_path(targets[k], path));
    }
}

/// On a shared walk an entry outside of all targets is passed over; every other is
/// screened as on a walk of its own.
pub proof fn law_shared_walk_screens_what_is_wanted(
    targets: Seq<Seq<ComponentView>>,
    kind: EntryKind,
    path: Seq<ComponentView>,
)
    ensures
        is_wanted(targets, path) ==> group_screening(targets, kind, path) == screening(kind, path),
        !is_wanted(targets, path) ==> group_screening(targets, kind, path) == Screening::Settled(
            WalkAction::Continue,
        ),
{
    lemma_wanted(targets, path);
}

/// On a shared walk a directory under some target is entered just where its name is not
/// critical, its metadata could be read, it has not been reached before, and it lies on the
/// device of the walk's root; whatever else its metadata says. One outside of all targets
/// is entered.
pub proof fn law_shared_directory_is_entered(
    state: GroupState,
    path: Seq<ComponentView>,
    meta: Option<FileMeta>,
)
    ensures
        group_step(state, EventView::Entry { kind: EntryKind::Dir, path, meta }).1
            == WalkAction::Continue <==> {
            ||| !is_wanted(state.targets, path)
            ||| {
                &&& screening(EntryKind::Dir, path) == Screening::NeedsMetadata
                &&& meta is Some
                &&& !state.seen_dirs.contains((meta->0.dev, meta->0.ino))
                &&& state.root_dev == meta->0.dev
            }
        },
{
    lemma_wanted(state.targets, path);
    law_only_critical_directories_are_left_out_by_name(EntryKind::Dir, path);
}

/// What a directory on a shared walk changes for target `k`: the counts of unreadable
/// entries and of directories on other devices go up for the targets that it lies under.
pub proof fn law_shared_directory_is_counted(
    state: GroupState,
    k: int,
    path: Seq<ComponentView>,
    meta: Option<FileMeta>,
)
    requires
        state.wf(),
        0 <= k < state.targets.len(),
    ensures
        ({
            let after = group_step(state, EventView::Entry { kind: EntryKind::Dir, path, meta }).0;
            let judged = screening(EntryKind::Dir, path) == Screening::NeedsMetadata;
            let under = judged && contains_path(state.targets[k], path);
            let crosses = under && meta is Some && !state.seen_dirs.contains(
                (meta->0.dev, meta->0.ino),
            ) && state.root_dev != meta->0.dev;
            &&& after.wf()
            &&& after.root_dev == state.root_dev
            &&& after.targets == state.targets
            &&& after.total_bytes[k] == state.total_bytes[k]
            &&& after.seen_inodes[k] == state.seen_inodes[k]
            &&& counts_up(
                state.skipped_perm[k],
                if under && meta is None {
                    1
                } else {
                    0
                },
                after.skipped_perm[k],
            )
            &&& counts_up(
                state.skipped_cross_dev[k],
                if crosses {
                    1
                } else {
                    0
                },
                after.skipped_cross_dev[k],
            )
            &&& forall|dev: u64, ino: u64| #[trigger]
                after.seen_dirs.contains((dev, ino)) <==> state.seen_dirs.contains((dev, ino)) || (
                judged && is_wanted(state.targets, path) && meta is Some && meta->0.dev == dev
                    && meta->0.ino == ino)
        }),
{
    lemma_wanted(state.targets, path);
    if contains_path(state.targets[k], path) {
        assert(lies_under(state.targets, k, path));
    }
}

/// What a file on a shared walk changes for target `k`: it adds 512 bytes for each of its
/// blocks where it lies under the target and on the device of the walk's root, and has one
/// link or has not been counted for this target before.
pub proof fn law_shared_file_is_counted(
    state: GroupState,
    k: int,
    path: Seq<ComponentView>,
    meta: Option<FileMeta>,
)
    requires
        state.wf(),
        0 <= k < state.targets.len(),
    ensures
        ({
            let (after, action) = group_step(
                state,
                EventView::Entry { kind: EntryKind::File, path, meta },
            );
            let under = contains_path(state.targets[k], path);
            let here = under && meta is Some && state.root_dev == meta->0.dev;
            let linked = here && meta->0.nlink >= 2;
            let counts = here && !(linked && state.seen_inodes[k].contains(
                (meta->0.dev, meta->0.ino),
            ));
            &&& action == WalkAction::Continue
            &&& after.wf()
            &&& after.root_dev == state.root_dev
            &&& after.targets == state.targets
            &&& after.seen_dirs == state.seen_dirs
            &&& after.skipped_cross_dev[k] == state.skipped_cross_dev[k]
            &&& counts_up(
                state.skipped_perm[k],
                if under && meta is None {
                    1
                } else {
                    0
                },
                after.skipped_perm[k],
            )
            &&& !counts ==> after.total_bytes[k] == state.total_bytes[k]
            &&& counts && meta->0.blocks * 512 <= u64::MAX ==> counts_up(
                state.total_bytes[k],
                meta->0.blocks * 512,
                after.total_bytes[k],
            )
            &&& counts && meta->0.blocks * 512 > u64::MAX ==> counts_up(
                state.total_bytes[k],
                u64::MAX as int,
                after.total_bytes[k],
            )
            &&& forall|dev: u64, ino: u64| #[trigger]
                after.seen_inodes[k].contains((dev, ino)) <==> state.seen_inodes[k].contains(
                    (dev, ino),
                ) || (linked && meta->0.dev == dev && meta->0.ino == ino)
        }),
{
    lemma_wanted(state.targets, path);
    if contains_path(state.targets[k], path) {
        assert(lies_under(state.targets, k, path));
    }
}

/// On a shared walk a report without a path counts as unreadable for every target, and does
/// nothing else. Links, sockets, pipes, devices and what the walk could not tell change
/// nothing. The walk goes on.
pub proof fn law_other_shared_reports_are_passed_over(state: GroupState, k: int, event: EventView)
    requires
        state.wf(),
        0 <= k < state.targets.len(),
        event matches EventView::Entry { kind, .. } ==> kind != EntryKind::Dir && kind
            != EntryKind::File,
    ensures
        group_step(state, event).1 == WalkAction::Continue,
        group_step(state, event).0.wf(),
        counts_up(
            state.skipped_perm[k],
            if event is Unreadable {
                1
            } else {
                0
            },
            group_step(state, event).0.skipped_perm[k],
        ),
        group_step(state, event).0 == (GroupState {
            skipped_perm: group_step(state, event).0.skipped_perm,
            ..state
        }),
{
}

/// A shared scan starts with nothing counted for any target, and nothing reached.
pub proof fn law_shared_scan_starts_from_nothing(
    root_dev: u64,
    targets: Seq<Seq<ComponentView>>,
    k: int,
)
    requires
        targets.len() <= usize::MAX,
        0 <= k < targets.len(),
    ensures
        group_start(root_dev, targets).wf(),
        group_start(root_dev, targets).root_dev == root_dev,
        group_start(root_dev, targets).targets == targets,
        group_start(root_dev, targets).total_bytes[k] == 0,
        group_start(root_dev, targets).skipped_perm[k] == 0,
        group_start(root_dev, targets).skipped_cross_dev[k] == 0,
        forall|dev: u64, ino: u64|
            !(#[trigger] group_start(root_dev, targets).seen_inodes[k].contains((dev, ino))),
        forall|dev: u64, ino: u64|
            !(#[trigger] group_start(root_dev, targets).seen_dirs.contains((dev, ino))),
        group_run(group_start(root_dev, targets), Seq::empty()) == group_start(root_dev, targets),
{
}

/// Reports of a shared walk are taken in one after the other.
pub proof fn law_shared_reports_are_taken_in_turn(
    state: GroupState,
    events: Seq<EventView>,
    last: EventView,
)
    ensures
        group_run(state, events.push(last)) == group_step(group_run(state, events), last).0,
{
    assert(events.push(last).drop_last() =~= events);
}

/// The results of a shared scan show, target by target, whole kilobytes of 1024 bytes,
/// rounded down, and the counts as they are.
pub proof fn law_shared_results_show_whole_kilobytes(state: GroupState, k: int)
    requires
        state.wf(),
        0 <= k < state.targets.len(),
    ensures
        group_totals(state).len() == state.targets.len(),
        group_totals(state)[k].kb * 1024 <= state.total_bytes[k] < (group_totals(state)[k].kb + 1)
            * 1024,
        group_totals(state)[k].skipped_perm == state.skipped_perm[k],
        group_totals(state)[k].skipped_cross_dev == state.skipped_cross_dev[k],
{
}

/// Targets are taken as they are, in their order.
pub proof fn law_paths_are_taken_as_given(paths: Seq<ScanPath>, k: int)
    requires
        0 <= k < paths.len(),
    ensures
        path_views(paths).len() == paths.len(),
        path_views(paths)[k] == paths[k]@,
{
}

/// The state after a shared walk: what it was started with, and the directories under the
/// targets that were reported.
proof fn lemma_shared_reached(
    root_dev: u64,
    targets: Seq<Seq<ComponentView>>,
    events: Seq<EventView>,
)
    requires
        0 < targets.len() <= usize::MAX,
    ensures
        ({
            let state = group_run(group_start(root_dev, targets), events);
            &&& state.wf()
            &&& state.root_dev == root_dev
            &&& state.targets == targets
            &&& forall|dev: u64, ino: u64| #[trigger]
                state.seen_dirs.contains((dev, ino)) <==> wanted_directory_reported(
                    targets,
                    events,
                    dev,
                    ino,
                )
        }),
    decreases events.len(),
{
    let start = group_start(root_dev, targets);
    law_shared_scan_starts_from_nothing(root_dev, targets, 0);
    if events.len() > 0 {
        let rest = events.drop_last();
        let event = events.last();
        lemma_shared_reached(root_dev, targets, rest);
        assert(events =~= rest.push(event));
        law_shared_reports_are_taken_in_turn(start, rest, event);
        let before = group_run(start, rest);
        match event {
            EventView::Entry { kind, path, meta } => {
                if kind == EntryKind::Dir {
                    law_shared_directory_is_counted(before, 0, path, meta);
                } else if kind == EntryKind::File {
                    law_shared_file_is_counted(before, 0, path, meta);
                } else {
                    law_other_shared_reports_are_passed_over(before, 0, event);
                }
            },
            EventView::Unreadable => {
                law_other_shared_reports_are_passed_over(before, 0, event);
            },
        }
        assert forall|dev: u64, ino: u64| #[trigger]
            group_run(start, events).seen_dirs.contains((dev, ino)) <==> wanted_directory_reported(
                targets,
                events,
                dev,
                ino,
            ) by {
            assert(before.seen_dirs.contains((dev, ino)) <==> wanted_directory_reported(
                targets,
                rest,
                dev,
                ino,
            ));
            lemma_wanted_next(targets, rest, event, dev, ino);
        }
    }
}

/// Whether one of the reports is of this directory, under some target.
pub open spec fn wanted_directory_reported(
    targets: Seq<Seq<ComponentView>>,
    events: Seq<EventView>,
    dev: u64,
    ino: u64,
) -> bool {
    exists|j: int|
        0 <= j < events.len() && #[trigger] reports_directory(events[j], dev, ino) && is_wanted(
            targets,
            events[j]->path,
        )
}

proof fn lemma_wanted_next(
    targets: Seq<Seq<ComponentView>>,
    events: Seq<EventView>,
    event: EventView,
    dev: u64,
    ino: u64,
)
    ensures
        wanted_directory_reported(targets, events.push(event), dev, ino)
            <==> wanted_directory_reported(targets, events, dev, ino) || (reports_directory(
            event,
            dev,
            ino,
        ) && is_wanted(targets, event->path)),
{
    let longer = events.push(event);
    if wanted_directory_reported(targets, events, dev, ino) {
        let j = choose|j: int|
            0 <= j < events.len() && #[trigger] reports_directory(events[j], dev, ino)
                && is_wanted(targets, events[j]->path);
        assert(reports_directory(longer[j], dev, ino));
    }
    if reports_directory(event, dev, ino) && is_wanted(targets, event->path) {
        assert(reports_directory(longer[events.len() as int], dev, ino));
    }
    if wanted_directory_reported(targets, longer, dev, ino) {
        let j = choose|j: int|
            0 <= j < longer.len() && #[trigger] reports_directory(longer[j], dev, ino)
                && is_wanted(targets, longer[j]->path);
        if j < events.len() {
            assert(reports_directory(events[j], dev, ino));
        }
    }
}

/// On a whole shared walk a directory is left out only where it lies under a target and
/// its name is critical, its metadata could not be read, it was reported before, or it lies
/// on another device.
pub proof fn law_shared_walk_leaves_a_directory_out_for_a_reason(
    root_dev: u64,
    targets: Seq<Seq<ComponentView>>,
    events: Seq<EventView>,
    path: Seq<ComponentView>,
    meta: Option<FileMeta>,
)
    requires
        0 < targets.len() <= usize::MAX,
    ensures
        group_step(
            group_run(group_start(root_dev, targets), events),
            EventView::Entry { kind: EntryKind::Dir, path, meta },
        ).1 == WalkAction::Skip <==> is_wanted(targets, path) && {
            ||| screening(EntryKind::Dir, path) == Screening::Settled(WalkAction::Skip)
            ||| meta is None
            ||| wanted_directory_reported(targets, events, meta->0.dev, meta->0.ino)
            ||| root_dev != meta->0.dev
        },
{
    let state = group_run(group_start(root_dev, targets), events);
    lemma_shared_reached(root_dev, targets, events);
    law_shared_directory_is_entered(state, path, meta);
    law_only_critical_directories_are_left_out_by_name(EntryKind::Dir, path);
}

} // verus!
