//! What a scan of one directory tree amounts to, over all the reports of a walk.

use crate::dir_scan::{dir_start, dir_step, off_device, DirState};
use crate::entry::{screening, EntryKind, EventView, FileMeta, Screening, WalkAction};
use vstd::prelude::*;
use vstd::seq_lib::{commutative_foldl, lemma_fold_left_permutation};

verus! {

/// The state after a sequence of reports.
pub open spec fn dir_run(state: DirState, events: Seq<EventView>) -> DirState {
    events.fold_left(state, |s: DirState, e: EventView| dir_step(s, e).0)
}

/// Whether the metadata of the reported entry decides.
pub open spec fn decided_by_metadata(event: EventView) -> bool {
    event matches EventView::Entry { kind, path, .. } && screening(kind, path)
        == Screening::NeedsMetadata
}

/// Whether the report is of a file with this metadata.
pub open spec fn is_file(event: EventView, meta: FileMeta) -> bool {
    event matches EventView::Entry { kind, meta: read, .. } && kind == EntryKind::File && read
        == Some(meta)
}

/// Whether the report is of a directory with this metadata that is not left out for its
/// name.
pub open spec fn is_dir(event: EventView, meta: FileMeta) -> bool {
    event matches EventView::Entry { kind, meta: read, .. } && kind == EntryKind::Dir && read
        == Some(meta) && decided_by_metadata(event)
}

/// Whether the report is of something that could not be read.
pub open spec fn is_unreadable(event: EventView) -> bool {
    match event {
        EventView::Unreadable => true,
        EventView::Entry { meta, .. } => decided_by_metadata(event) && meta is None,
    }
}

/// Whether the report is of a file on the scanned device that has several links.
pub open spec fn is_linked_file(root_dev: Option<u64>, event: EventView, meta: FileMeta) -> bool {
    is_file(event, meta) && !off_device(root_dev, meta.dev) && meta.nlink > 1
}

proof fn lemma_run_next(state: DirState, events: Seq<EventView>, event: EventView)
    ensures
        dir_run(state, events.push(event)) == dir_step(dir_run(state, events), event).0,
{
    assert(events.push(event).drop_last() =~= events);
}

proof fn lemma_run_keeps(state: DirState, events: Seq<EventView>)
    ensures
        dir_run(state, events).root_dev == state.root_dev,
        state.seen_inodes.subset_of(dir_run(state, events).seen_inodes),
        state.seen_dirs.subset_of(dir_run(state, events).seen_dirs),
    decreases events.len(),
{
    if events.len() > 0 {
        lemma_run_keeps(state, events.drop_last());
        assert(events =~= events.drop_last().push(events.last()));
        lemma_run_next(state, events.drop_last(), events.last());
    }
}

/// A file with several links adds its bytes the first time it is reported; every later
/// report of it changes nothing, whatever was reported in between.
pub proof fn law_linked_file_counts_once(
    state: DirState,
    first: EventView,
    first_meta: FileMeta,
    between: Seq<EventView>,
    again: EventView,
    again_meta: FileMeta,
)
    requires
        is_linked_file(state.root_dev, first, first_meta),
        is_linked_file(state.root_dev, again, again_meta),
        first_meta.key() == again_meta.key(),
    ensures
        ({
            let reached = dir_run(dir_step(state, first).0, between);
            dir_step(reached, again).0 == reached
        }),
{
    let start = dir_step(state, first).0;
    assert(start.seen_inodes.contains(first_meta.key()));
    lemma_run_keeps(start, between);
}

/// A directory is entered at most once: every later report of it leaves it out and
/// changes nothing, whatever was reported in between.
pub proof fn law_directory_is_entered_once(
    state: DirState,
    first: EventView,
    first_meta: FileMeta,
    between: Seq<EventView>,
    again: EventView,
    again_meta: FileMeta,
)
    requires
        is_dir(first, first_meta),
        is_dir(again, again_meta),
        first_meta.key() == again_meta.key(),
    ensures
        ({
            let reached = dir_run(dir_step(state, first).0, between);
            dir_step(reached, again) == (reached, WalkAction::Skip)
        }),
{
    let start = dir_step(state, first).0;
    assert(start.seen_dirs.contains(first_meta.key()));
    lemma_run_keeps(start, between);
}

/// The walk never goes into a directory on another device.
pub proof fn law_walk_stays_on_the_device(state: DirState, event: EventView, meta: FileMeta)
    requires
        is_dir(event, meta),
        off_device(state.root_dev, meta.dev),
    ensures
        dir_step(state, event).1 == WalkAction::Skip,
        dir_step(state, event).0.total_bytes == state.total_bytes,
{
}

/// Whether file `meta`, reported at place `i`, has been reported before.
pub open spec fn linked_before(
    root_dev: Option<u64>,
    events: Seq<EventView>,
    i: int,
    meta: FileMeta,
) -> bool {
    exists|j: int, other: FileMeta|
        0 <= j < i && #[trigger] is_linked_file(root_dev, events[j], other) && other.key()
            == meta.key()
}

/// Whether directory `meta`, reported at place `i`, has been reported before.
pub open spec fn reached_before(events: Seq<EventView>, i: int, meta: FileMeta) -> bool {
    exists|j: int, other: FileMeta|
        0 <= j < i && #[trigger] is_dir(events[j], other) && other.key() == meta.key()
}

/// What report `i` adds to the bytes: a file on the scanned device adds its own, but one
/// with several links only where it has not been reported before.
pub open spec fn added_bytes(root_dev: Option<u64>, events: Seq<EventView>, i: int) -> int {
    match events[i] {
        EventView::Entry { kind: EntryKind::File, meta: Some(meta), .. } => if off_device(
            root_dev,
            meta.dev,
        ) || (meta.nlink > 1 && linked_before(root_dev, events, i, meta)) {
            0
        } else {
            meta.bytes() as int
        },
        _ => 0,
    }
}

/// What report `i` adds to the directories that lie on another device.
pub open spec fn added_cross_dev(root_dev: Option<u64>, events: Seq<EventView>, i: int) -> int {
    match events[i] {
        EventView::Entry { kind: EntryKind::Dir, meta: Some(meta), .. } => if is_dir(
            events[i],
            meta,
        ) && off_device(root_dev, meta.dev) && !reached_before(events, i, meta) {
            1
        } else {
            0
        },
        _ => 0,
    }
}

/// What report `i` adds to what could not be read.
pub open spec fn added_unreadable(events: Seq<EventView>, i: int) -> int {
    if is_unreadable(events[i]) {
        1
    } else {
        0
    }
}

/// The sum of what the first `n` reports add.
pub open spec fn sum_of(added: spec_fn(int) -> int, n: int) -> int
    decreases n,
{
    if n <= 0 {
        0
    } else {
        sum_of(added, n - 1) + added(n - 1)
    }
}

/// A count as a `u64` counter shows it.
pub open spec fn wrapped(count: int) -> u64 {
    (count % 0x1_0000_0000_0000_0000) as u64
}

/// Whether `key` belongs to a linked file among the first `n` reports.
spec fn linked_key(root_dev: Option<u64>, events: Seq<EventView>, n: int, key: (u64, u64)) -> bool {
    exists|j: int, other: FileMeta|
        0 <= j < n && #[trigger] is_linked_file(root_dev, events[j], other) && other.key() == key
}

/// Whether `key` belongs to a directory among the first `n` reports.
spec fn reached_key(events: Seq<EventView>, n: int, key: (u64, u64)) -> bool {
    exists|j: int, other: FileMeta|
        0 <= j < n && #[trigger] is_dir(events[j], other) && other.key() == key
}

proof fn lemma_wrapped_sum(counter: u64, sum: int, more: u64)
    requires
        counter == wrapped(sum),
    ensures
        counter.wrapping_add(more) == wrapped(sum + more),
{
    vstd::arithmetic::div_mod::lemma_add_mod_noop(sum, more as int, 0x1_0000_0000_0000_0000);
    vstd::arithmetic::div_mod::lemma_small_mod(more as nat, 0x1_0000_0000_0000_0000);
}

proof fn lemma_run_prefix(root_dev: Option<u64>, events: Seq<EventView>, n: int)
    requires
        0 <= n <= events.len(),
    ensures
        ({
            let state = dir_run(dir_start(root_dev), events.take(n));
            &&& state.root_dev == root_dev
            &&& state.total_bytes == wrapped(
                sum_of(|i: int| added_bytes(root_dev, events, i), n),
            )
            &&& state.skipped_perm == wrapped(sum_of(|i: int| added_unreadable(events, i), n))
            &&& state.skipped_cross_dev == wrapped(
                sum_of(|i: int| added_cross_dev(root_dev, events, i), n),
            )
            &&& forall|key: (u64, u64)| #[trigger]
                state.seen_inodes.contains(key) <==> linked_key(root_dev, events, n, key)
            &&& forall|key: (u64, u64)| #[trigger]
                state.seen_dirs.contains(key) <==> reached_key(events, n, key)
        }),
    decreases n,
{
    if n > 0 {
        let i = n - 1;
        let event = events[i];
        lemma_run_prefix(root_dev, events, i);
        assert(events.take(n) =~= events.take(i).push(event));
        lemma_run_next(dir_start(root_dev), events.take(i), event);
        let before = dir_run(dir_start(root_dev), events.take(i));
        let after = dir_step(before, event).0;
        let bytes = sum_of(|i: int| added_bytes(root_dev, events, i), i);
        let unreadable = sum_of(|i: int| added_unreadable(events, i), i);
        let cross = sum_of(|i: int| added_cross_dev(root_dev, events, i), i);
        lemma_wrapped_sum(before.skipped_perm, unreadable, 1);
        lemma_wrapped_sum(before.skipped_cross_dev, cross, 1);
        assert forall|key: (u64, u64)| #[trigger]
            linked_key(root_dev, events, n, key) <==> linked_key(root_dev, events, i, key) || exists|
                other: FileMeta,
            | #[trigger] is_linked_file(root_dev, event, other) && other.key() == key by {
            if linked_key(root_dev, events, n, key) && !linked_key(root_dev, events, i, key) {
                let (j, other) = choose|j: int, other: FileMeta|
                    0 <= j < n && #[trigger] is_linked_file(root_dev, events[j], other)
                        && other.key() == key;
                assert(j == i);
            }
        }
        assert forall|key: (u64, u64)| #[trigger]
            reached_key(events, n, key) <==> reached_key(events, i, key) || exists|
                other: FileMeta,
            | #[trigger] is_dir(event, other) && other.key() == key by {
            if reached_key(events, n, key) && !reached_key(events, i, key) {
                let (j, other) = choose|j: int, other: FileMeta|
                    0 <= j < n && #[trigger] is_dir(events[j], other) && other.key() == key;
                assert(j == i);
            }
        }
        match event {
            EventView::Entry { kind, path, meta: Some(meta) } => {
                lemma_wrapped_sum(before.total_bytes, bytes, meta.bytes());
                if kind == EntryKind::File {
                    assert(is_file(event, meta));
                    assert(linked_before(root_dev, events, i, meta) == linked_key(
                        root_dev,
                        events,
                        i,
                        meta.key(),
                    ));
                    assert(is_linked_file(root_dev, event, meta) == (!off_device(
                        root_dev,
                        meta.dev,
                    ) && meta.nlink > 1));
                } else if kind == EntryKind::Dir && decided_by_metadata(event) {
                    assert(is_dir(event, meta));
                    assert(reached_before(events, i, meta) == reached_key(events, i, meta.key()));
                }
            },
            _ => {},
        }
    } else {
        assert(events.take(0) =~= Seq::<EventView>::empty());
    }
}

/// The totals of a scan, counted over its reports: each file on the scanned device once
/// for each path, but once in all where it has several links; each directory on another
/// device once; and each thing that could not be read.
pub proof fn law_totals_count_the_reports(root_dev: Option<u64>, events: Seq<EventView>)
    ensures
        ({
            let state = dir_run(dir_start(root_dev), events);
            let n = events.len() as int;
            &&& state.total_bytes == wrapped(
                sum_of(|i: int| added_bytes(root_dev, events, i), n),
            )
            &&& state.skipped_perm == wrapped(sum_of(|i: int| added_unreadable(events, i), n))
            &&& state.skipped_cross_dev == wrapped(
                sum_of(|i: int| added_cross_dev(root_dev, events, i), n),
            )
        }),
{
    lemma_run_prefix(root_dev, events, events.len() as int);
    assert(events.take(events.len() as int) =~= events);
}

/// Whether reports of the same file with several links agree on its size.
pub open spec fn sizes_agree(root_dev: Option<u64>, events: Seq<EventView>) -> bool {
    forall|i: int, j: int, left: FileMeta, right: FileMeta|
        0 <= i < events.len() && 0 <= j < events.len() && #[trigger] is_linked_file(
            root_dev,
            events[i],
            left,
        ) && #[trigger] is_linked_file(root_dev, events[j], right) && left.key() == right.key()
            ==> left.blocks == right.blocks
}

/// One report, with the sizes of files with several links looked up in `sizes`.
spec fn sized_step(
    state: DirState,
    event: EventView,
    sizes: spec_fn((u64, u64)) -> u64,
) -> DirState {
    match event {
        EventView::Entry { kind: EntryKind::File, meta: Some(meta), .. } => if off_device(
            state.root_dev,
            meta.dev,
        ) || meta.nlink <= 1 || state.seen_inodes.contains(meta.key()) {
            dir_step(state, event).0
        } else {
            DirState {
                total_bytes: state.total_bytes.wrapping_add(sizes(meta.key())),
                seen_inodes: state.seen_inodes.insert(meta.key()),
                ..state
            }
        },
        _ => dir_step(state, event).0,
    }
}

proof fn lemma_sized_steps_commute(
    state: DirState,
    x: EventView,
    y: EventView,
    sizes: spec_fn((u64, u64)) -> u64,
)
    ensures
        sized_step(sized_step(state, x, sizes), y, sizes) == sized_step(
            sized_step(state, y, sizes),
            x,
            sizes,
        ),
{
    let xy = sized_step(sized_step(state, x, sizes), y, sizes);
    let yx = sized_step(sized_step(state, y, sizes), x, sizes);
    assert(xy.seen_inodes =~= yx.seen_inodes);
    assert(xy.seen_dirs =~= yx.seen_dirs);
    assert(xy =~= yx);
}

/// The size that the reports give for a file with several links.
pub closed spec fn reported_size(
    root_dev: Option<u64>,
    events: Seq<EventView>,
    key: (u64, u64),
) -> u64 {
    let (i, meta) = choose|i: int, meta: FileMeta|
        0 <= i < events.len() && #[trigger] is_linked_file(root_dev, events[i], meta) && meta.key()
            == key;
    meta.bytes()
}

/// Agreeing reports of a file with several links all give its size.
pub(crate) proof fn lemma_reported_size(
    root_dev: Option<u64>,
    events: Seq<EventView>,
    i: int,
    meta: FileMeta,
)
    requires
        sizes_agree(root_dev, events),
        0 <= i < events.len(),
        is_linked_file(root_dev, events[i], meta),
    ensures
        reported_size(root_dev, events, meta.key()) == meta.bytes(),
{
    let (j, other) = choose|j: int, other: FileMeta|
        0 <= j < events.len() && #[trigger] is_linked_file(root_dev, events[j], other)
            && other.key() == meta.key();
    assert(is_linked_file(root_dev, events[j], other) && other.blocks == meta.blocks);
}

/// Looking the sizes up in agreeing reports changes nothing.
proof fn lemma_sized_run(
    state: DirState,
    all: Seq<EventView>,
    events: Seq<EventView>,
    step: spec_fn(DirState, EventView) -> DirState,
)
    requires
        sizes_agree(state.root_dev, all),
        forall|i: int| 0 <= i < events.len() ==> all.contains(#[trigger] events[i]),
        step == (|s: DirState, e: EventView|
            sized_step(s, e, |key: (u64, u64)| reported_size(state.root_dev, all, key))),
    ensures
        dir_run(state, events) == events.fold_left(state, step),
    decreases events.len(),
{
    if events.len() > 0 {
        let rest = events.drop_last();
        let event = events.last();
        lemma_sized_run(state, all, rest, step);
        lemma_run_keeps(state, rest);
        assert(events =~= rest.push(event));
        lemma_run_next(state, rest, event);
        let reached = dir_run(state, rest);
        assert(all.contains(events[events.len() - 1]));
        if let EventView::Entry { kind: EntryKind::File, meta: Some(meta), .. } = event {
            if is_linked_file(state.root_dev, event, meta) {
                let at = all.index_of(event);
                assert(is_linked_file(state.root_dev, all[at], meta));
                lemma_reported_size(state.root_dev, all, at, meta);
            }
        }
        assert(step(reached, event) == dir_step(reached, event).0);
    }
}

/// The outcome of a scan does not depend on the order in which a parallel walk reports
/// the entries, as long as reports of the same file agree on its size.
pub proof fn law_order_of_reports_is_irrelevant(
    state: DirState,
    left: Seq<EventView>,
    right: Seq<EventView>,
)
    requires
        left.to_multiset() == right.to_multiset(),
        sizes_agree(state.root_dev, left),
    ensures
        dir_run(state, left) == dir_run(state, right),
{
    broadcast use vstd::seq_lib::group_to_multiset_ensures;

    let sizes = |key: (u64, u64)| reported_size(state.root_dev, left, key);
    let step = |s: DirState, e: EventView|
        sized_step(s, e, |key: (u64, u64)| reported_size(state.root_dev, left, key));
    assert forall|i: int| 0 <= i < left.len() implies left.contains(#[trigger] left[i]) by {}
    assert forall|i: int| 0 <= i < right.len() implies left.contains(#[trigger] right[i]) by {
        assert(right.contains(right[i]));
        assert(right.to_multiset().count(right[i]) > 0);
    }
    lemma_sized_run(state, left, left, step);
    lemma_sized_run(state, left, right, step);
    assert(commutative_foldl(step)) by {
        assert forall|x: EventView, y: EventView, v: DirState| #[trigger]
            step(step(v, x), y) == step(step(v, y), x) by {
            lemma_sized_steps_commute(v, x, y, sizes);
        }
    }
    lemma_fold_left_permutation(left, right, step, state);
}

} // verus!
