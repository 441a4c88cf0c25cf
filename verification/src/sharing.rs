//! What a shared walk amounts to for each of its targets.

use crate::accounting::{
    dir_run, is_dir, is_linked_file, lemma_reported_size, reported_size, sizes_agree,
};
use crate::dir_scan::{dir_start, dir_step, DirState};
use crate::entry::{EntryKind, EventView, FileMeta};
use crate::group_scan::{
    charged, charged_once, group_start, group_step, group_totals, lies_under, lies_under_some,
    marked, GroupState,
};
use crate::parts::{counters_fit, law_part_counts_no_more_than_the_whole, no_larger};
use crate::path::{contains_path, ComponentView};
use vstd::prelude::*;
use vstd::seq_lib::{commutative_foldl, lemma_fold_left_permutation};

verus! {

/// The state of a shared scan after a sequence of reports.
pub open spec fn group_run(state: GroupState, events: Seq<EventView>) -> GroupState {
    events.fold_left(state, |s: GroupState, e: EventView| group_step(s, e).0)
}

/// Whether a report concerns target `k`: it lies under the target, or has no path.
pub open spec fn concerns(targets: Seq<Seq<ComponentView>>, k: int, event: EventView) -> bool {
    match event {
        EventView::Unreadable => true,
        EventView::Entry { path, .. } => lies_under(targets, k, path),
    }
}

/// The reports that concern target `k`.
pub open spec fn reports_for(
    targets: Seq<Seq<ComponentView>>,
    k: int,
    events: Seq<EventView>,
) -> Seq<EventView> {
    events.filter(|e: EventView| concerns(targets, k, e))
}

/// What a shared scan holds for target `k`, as the state of a scan of its own.
pub open spec fn target_state(state: GroupState, k: int) -> DirState {
    DirState {
        root_dev: Some(state.root_dev),
        total_bytes: state.total_bytes[k],
        skipped_perm: state.skipped_perm[k],
        skipped_cross_dev: state.skipped_cross_dev[k],
        seen_inodes: state.seen_inodes[k],
        seen_dirs: state.seen_dirs,
    }
}

proof fn lemma_group_run_next(state: GroupState, events: Seq<EventView>, event: EventView)
    ensures
        group_run(state, events.push(event)) == group_step(group_run(state, events), event).0,
{
    assert(events.push(event).drop_last() =~= events);
}

/// A shared scan keeps its device and its targets, and stays well-formed.
pub(crate) proof fn lemma_group_run_keeps(state: GroupState, events: Seq<EventView>)
    requires
        state.wf(),
    ensures
        group_run(state, events).wf(),
        group_run(state, events).root_dev == state.root_dev,
        group_run(state, events).targets == state.targets,
    decreases events.len(),
{
    if events.len() > 0 {
        lemma_group_run_keeps(state, events.drop_last());
        assert(events =~= events.drop_last().push(events.last()));
        lemma_group_run_next(state, events.drop_last(), events.last());
    }
}

/// A report that concerns a target is accounted for the target, and answered, as in a
/// scan of the target's own.
pub proof fn law_shared_step_is_own_step(state: GroupState, k: int, event: EventView)
    requires
        state.wf(),
        0 <= k < state.targets.len(),
        concerns(state.targets, k, event),
    ensures
        target_state(group_step(state, event).0, k) == dir_step(target_state(state, k), event).0,
        group_step(state, event).1 == dir_step(target_state(state, k), event).1,
{
    if let EventView::Entry { path, .. } = event {
        assert(lies_under(state.targets, k, path));
        assert(lies_under_some(state.targets, path));
    }
}

/// A report that does not concern a target leaves the target's counters and counted files
/// as they are.
pub proof fn law_other_reports_leave_a_target_alone(state: GroupState, k: int, event: EventView)
    requires
        state.wf(),
        0 <= k < state.targets.len(),
        !concerns(state.targets, k, event),
    ensures
        ({
            let after = group_step(state, event).0;
            target_state(after, k) == (DirState {
                seen_dirs: after.seen_dirs,
                ..target_state(state, k)
            })
        }),
{
}

proof fn lemma_reports_next(
    targets: Seq<Seq<ComponentView>>,
    k: int,
    events: Seq<EventView>,
    event: EventView,
)
    ensures
        reports_for(targets, k, events.push(event)) == (if concerns(targets, k, event) {
            reports_for(targets, k, events).push(event)
        } else {
            reports_for(targets, k, events)
        }),
{
    reveal(Seq::filter);
    assert(events.push(event).drop_last() =~= events);
}

/// Whether two states hold the same bytes, the same unreadable entries and the same
/// counted files.
spec fn same_bytes(left: DirState, right: DirState) -> bool {
    &&& left.root_dev == right.root_dev
    &&& left.total_bytes == right.total_bytes
    &&& left.skipped_perm == right.skipped_perm
    &&& left.seen_inodes == right.seen_inodes
}

proof fn lemma_shared_prefix(
    root_dev: u64,
    targets: Seq<Seq<ComponentView>>,
    k: int,
    events: Seq<EventView>,
)
    requires
        targets.len() <= usize::MAX,
        0 <= k < targets.len(),
    ensures
        same_bytes(
            target_state(group_run(group_start(root_dev, targets), events), k),
            dir_run(dir_start(Some(root_dev)), reports_for(targets, k, events)),
        ),
    decreases events.len(),
{
    let start = group_start(root_dev, targets);
    if events.len() > 0 {
        let rest = events.drop_last();
        let event = events.last();
        lemma_shared_prefix(root_dev, targets, k, rest);
        lemma_group_run_keeps(start, rest);
        assert(events =~= rest.push(event));
        lemma_group_run_next(start, rest, event);
        lemma_reports_next(targets, k, rest, event);
        let before = group_run(start, rest);
        if concerns(targets, k, event) {
            law_shared_step_is_own_step(before, k, event);
            let own = reports_for(targets, k, rest);
            assert(own.push(event).drop_last() =~= own);
        } else {
            law_other_reports_leave_a_target_alone(before, k, event);
        }
    } else {
        reveal(Seq::filter);
    }
}

/// Sharing a walk changes no target's bytes: they are those of a scan of the target's own,
/// fed with the reports that concern it. So is the count of what could not be read, in
/// which a report without a path counts for every target of the walk: a directory beside
/// the target that cannot be listed counts too, though a walk from the target alone would
/// not meet it.
pub proof fn law_shared_walk_counts_like_own_walk(
    root_dev: u64,
    targets: Seq<Seq<ComponentView>>,
    k: int,
    events: Seq<EventView>,
)
    requires
        targets.len() <= usize::MAX,
        0 <= k < targets.len(),
    ensures
        ({
            let shared = group_run(group_start(root_dev, targets), events);
            let own = dir_run(dir_start(Some(root_dev)), reports_for(targets, k, events));
            &&& shared.total_bytes[k] == own.total_bytes
            &&& shared.skipped_perm[k] == own.skipped_perm
        }),
{
    lemma_shared_prefix(root_dev, targets, k, events);
}

/// Whether no directory is reported both under target `k` and outside of it.
pub open spec fn directories_apart(
    targets: Seq<Seq<ComponentView>>,
    k: int,
    events: Seq<EventView>,
) -> bool {
    forall|i: int, j: int, inner: FileMeta, outer: FileMeta|
        0 <= i < events.len() && 0 <= j < events.len() && #[trigger] is_dir(events[i], inner)
            && concerns(targets, k, events[i]) && #[trigger] is_dir(events[j], outer) && !concerns(
            targets,
            k,
            events[j],
        ) ==> inner.key() != outer.key()
}

/// Whether `key` belongs to a directory that is reported under target `k`.
spec fn inner_key(
    targets: Seq<Seq<ComponentView>>,
    k: int,
    events: Seq<EventView>,
    key: (u64, u64),
) -> bool {
    exists|i: int, meta: FileMeta|
        0 <= i < events.len() && #[trigger] is_dir(events[i], meta) && concerns(
            targets,
            k,
            events[i],
        ) && meta.key() == key
}

proof fn lemma_shared_devices(
    root_dev: u64,
    targets: Seq<Seq<ComponentView>>,
    k: int,
    events: Seq<EventView>,
    n: int,
)
    requires
        targets.len() <= usize::MAX,
        0 <= k < targets.len(),
        0 <= n <= events.len(),
        directories_apart(targets, k, events),
    ensures
        ({
            let shared = group_run(group_start(root_dev, targets), events.take(n));
            let own = dir_run(
                dir_start(Some(root_dev)),
                reports_for(targets, k, events.take(n)),
            );
            &&& shared.skipped_cross_dev[k] == own.skipped_cross_dev
            &&& own.root_dev == Some(root_dev)
            &&& forall|key: (u64, u64)|
                inner_key(targets, k, events, key) ==> (#[trigger] shared.seen_dirs.contains(key)
                    <==> own.seen_dirs.contains(key))
        }),
    decreases n,
{
    let start = group_start(root_dev, targets);
    if n > 0 {
        let rest = events.take(n - 1);
        let event = events[n - 1];
        lemma_shared_devices(root_dev, targets, k, events, n - 1);
        lemma_group_run_keeps(start, rest);
        assert(events.take(n) =~= rest.push(event));
        lemma_group_run_next(start, rest, event);
        lemma_reports_next(targets, k, rest, event);
        let before = group_run(start, rest);
        let own = reports_for(targets, k, rest);
        let own_before = dir_run(dir_start(Some(root_dev)), own);
        assert(own.push(event).drop_last() =~= own);
        if let EventView::Entry { kind: EntryKind::Dir, path, meta: Some(meta) } = event {
            if concerns(targets, k, event) {
                assert(lies_under(targets, k, path));
                assert(lies_under_some(targets, path));
                if is_dir(event, meta) {
                    assert(is_dir(events[n - 1], meta));
                    assert(inner_key(targets, k, events, meta.key()));
                }
            } else if is_dir(event, meta) {
                assert(is_dir(events[n - 1], meta));
                assert(!inner_key(targets, k, events, meta.key()));
            }
        }
    } else {
        reveal(Seq::filter);
        assert(events.take(0) =~= Seq::<EventView>::empty());
    }
}

/// Sharing a walk changes no target's count of directories on other devices either, as
/// long as no directory is reached both under the target and outside of it.
pub proof fn law_shared_walk_counts_devices_like_own_walk(
    root_dev: u64,
    targets: Seq<Seq<ComponentView>>,
    k: int,
    events: Seq<EventView>,
)
    requires
        targets.len() <= usize::MAX,
        0 <= k < targets.len(),
        directories_apart(targets, k, events),
    ensures
        group_run(group_start(root_dev, targets), events).skipped_cross_dev[k] == dir_run(
            dir_start(Some(root_dev)),
            reports_for(targets, k, events),
        ).skipped_cross_dev,
{
    lemma_shared_devices(root_dev, targets, k, events, events.len() as int);
    assert(events.take(events.len() as int) =~= events);
}

/// Where every report concerns a target, as every report of a walk concerns the directory
/// that the walk starts from, the target is accounted for just as in a scan of its own.
pub proof fn law_root_target_is_a_scan_of_its_own(
    root_dev: u64,
    targets: Seq<Seq<ComponentView>>,
    k: int,
    events: Seq<EventView>,
)
    requires
        targets.len() <= usize::MAX,
        0 <= k < targets.len(),
        forall|i: int| 0 <= i < events.len() ==> concerns(targets, k, #[trigger] events[i]),
    ensures
        target_state(group_run(group_start(root_dev, targets), events), k) == dir_run(
            dir_start(Some(root_dev)),
            events,
        ),
    decreases events.len(),
{
    let start = group_start(root_dev, targets);
    if events.len() > 0 {
        let rest = events.drop_last();
        let event = events.last();
        assert forall|i: int| 0 <= i < rest.len() implies concerns(
            targets,
            k,
            #[trigger] rest[i],
        ) by {
            assert(rest[i] == events[i]);
        }
        law_root_target_is_a_scan_of_its_own(root_dev, targets, k, rest);
        lemma_group_run_keeps(start, rest);
        assert(events =~= rest.push(event));
        lemma_group_run_next(start, rest, event);
        assert(concerns(targets, k, events[events.len() - 1]));
        law_shared_step_is_own_step(group_run(start, rest), k, event);
    }
}

/// What concerns a target concerns those above it too.
pub(crate) proof fn lemma_reports_nest(
    inner: Seq<Seq<ComponentView>>,
    j: int,
    outer: Seq<Seq<ComponentView>>,
    k: int,
    events: Seq<EventView>,
)
    requires
        contains_path(outer[k], inner[j]),
    ensures
        reports_for(inner, j, events).to_multiset().subset_of(
            reports_for(outer, k, events).to_multiset(),
        ),
    decreases events.len(),
{
    broadcast use vstd::seq_lib::group_to_multiset_ensures;

    if events.len() > 0 {
        let rest = events.drop_last();
        let event = events.last();
        lemma_reports_nest(inner, j, outer, k, rest);
        assert(events =~= rest.push(event));
        lemma_reports_next(inner, j, rest, event);
        lemma_reports_next(outer, k, rest, event);
        if concerns(inner, j, event) {
            if let EventView::Entry { path, .. } = event {
                let n = outer[k].len() as int;
                assert(inner[j].subrange(0, n) =~= path.subrange(0, n));
            }
            assert(concerns(outer, k, event));
        }
    } else {
        reveal(Seq::filter);
    }
}

/// A directory on another device that counts for a target counts for those above it too.
proof fn lemma_devices_nest(
    root_dev: u64,
    targets: Seq<Seq<ComponentView>>,
    j: int,
    k: int,
    events: Seq<EventView>,
)
    requires
        targets.len() <= usize::MAX,
        0 <= j < targets.len(),
        0 <= k < targets.len(),
        contains_path(targets[k], targets[j]),
        reports_for(targets, k, events).len() <= u64::MAX,
    ensures
        ({
            let shared = group_run(group_start(root_dev, targets), events);
            shared.skipped_cross_dev[j] <= shared.skipped_cross_dev[k] <= reports_for(
                targets,
                k,
                events,
            ).len()
        }),
    decreases events.len(),
{
    let start = group_start(root_dev, targets);
    if events.len() > 0 {
        let rest = events.drop_last();
        let event = events.last();
        assert(events =~= rest.push(event));
        lemma_reports_next(targets, k, rest, event);
        lemma_devices_nest(root_dev, targets, j, k, rest);
        lemma_group_run_keeps(start, rest);
        lemma_group_run_next(start, rest, event);
        if let EventView::Entry { path, .. } = event {
            if lies_under(targets, j, path) {
                let n = targets[k].len() as int;
                assert(targets[j].subrange(0, n) =~= path.subrange(0, n));
                assert(lies_under(targets, k, path));
            }
        }
    }
}

/// A target's totals are no smaller than those of a target under it, as long as reports
/// of the same file agree on its size, and no counter wraps around.
pub proof fn law_outer_target_counts_no_less(
    root_dev: u64,
    targets: Seq<Seq<ComponentView>>,
    j: int,
    k: int,
    events: Seq<EventView>,
)
    requires
        targets.len() <= usize::MAX,
        0 <= j < targets.len(),
        0 <= k < targets.len(),
        contains_path(targets[k], targets[j]),
        sizes_agree(Some(root_dev), reports_for(targets, k, events)),
        counters_fit(Some(root_dev), reports_for(targets, k, events)),
    ensures
        ({
            let totals = group_totals(group_run(group_start(root_dev, targets), events));
            no_larger(totals[j], totals[k])
        }),
{
    law_shared_walk_counts_like_own_walk(root_dev, targets, j, events);
    law_shared_walk_counts_like_own_walk(root_dev, targets, k, events);
    lemma_reports_nest(targets, j, targets, k, events);
    law_part_counts_no_more_than_the_whole(
        Some(root_dev),
        reports_for(targets, k, events),
        reports_for(targets, j, events),
    );
    lemma_devices_nest(root_dev, targets, j, k, events);
    lemma_group_run_keeps(group_start(root_dev, targets), events);
}

/// Whether reports of the same directory lie under the same targets.
pub open spec fn directories_agree(
    targets: Seq<Seq<ComponentView>>,
    events: Seq<EventView>,
) -> bool {
    forall|i: int, j: int, left: FileMeta, right: FileMeta, k: int|
        #![trigger is_dir(events[i], left), is_dir(events[j], right), concerns(targets, k, events[i])]
        0 <= i < events.len() && 0 <= j < events.len() && is_dir(events[i], left) && is_dir(
            events[j],
            right,
        ) && left.key() == right.key() && 0 <= k < targets.len() ==> concerns(
            targets,
            k,
            events[i],
        ) == concerns(targets, k, events[j])
}

/// One report to a well-formed state, with the sizes of files with several links looked
/// up in `sizes`, and the paths of directories in `places`.
spec fn settled_step(
    state: GroupState,
    event: EventView,
    sizes: spec_fn((u64, u64)) -> u64,
    places: spec_fn((u64, u64)) -> Seq<ComponentView>,
) -> GroupState {
    if state.wf() {
        settled(state, event, sizes, places)
    } else {
        state
    }
}

spec fn settled(
    state: GroupState,
    event: EventView,
    sizes: spec_fn((u64, u64)) -> u64,
    places: spec_fn((u64, u64)) -> Seq<ComponentView>,
) -> GroupState {
    match event {
        EventView::Entry { kind: EntryKind::File, path, meta: Some(meta) } => if meta.dev
            != state.root_dev || meta.nlink <= 1 {
            group_step(state, event).0
        } else {
            GroupState {
                total_bytes: Seq::new(
                    state.total_bytes.len(),
                    |k: int|
                        if lies_under(state.targets, k, path) && !state.seen_inodes[k].contains(
                            meta.key(),
                        ) {
                            state.total_bytes[k].wrapping_add(sizes(meta.key()))
                        } else {
                            state.total_bytes[k]
                        },
                ),
                seen_inodes: marked(state, path, meta),
                ..state
            }
        },
        EventView::Entry { kind: EntryKind::Dir, path, meta: Some(meta) } => if is_dir(event, meta)
            && lies_under_some(state.targets, path) && meta.dev != state.root_dev
            && !state.seen_dirs.contains(meta.key()) {
            GroupState {
                skipped_cross_dev: charged(
                    state.skipped_cross_dev,
                    state.targets,
                    places(meta.key()),
                    1,
                ),
                seen_dirs: state.seen_dirs.insert(meta.key()),
                ..state
            }
        } else {
            group_step(state, event).0
        },
        _ => group_step(state, event).0,
    }
}

#[verifier::spinoff_prover]
#[verifier::rlimit(60)]
proof fn lemma_settled_steps_commute(
    state: GroupState,
    x: EventView,
    y: EventView,
    sizes: spec_fn((u64, u64)) -> u64,
    places: spec_fn((u64, u64)) -> Seq<ComponentView>,
)
    ensures
        settled_step(settled_step(state, x, sizes, places), y, sizes, places) == settled_step(
            settled_step(state, y, sizes, places),
            x,
            sizes,
            places,
        ),
{
    let xy = settled_step(settled_step(state, x, sizes, places), y, sizes, places);
    let yx = settled_step(settled_step(state, y, sizes, places), x, sizes, places);
    assert(xy.total_bytes =~= yx.total_bytes);
    assert(xy.skipped_perm =~= yx.skipped_perm);
    assert(xy.skipped_cross_dev =~= yx.skipped_cross_dev);
    assert(xy.seen_inodes.len() == yx.seen_inodes.len());
    assert forall|k: int| 0 <= k < xy.seen_inodes.len() implies #[trigger] xy.seen_inodes[k]
        == yx.seen_inodes[k] by {
        assert(xy.seen_inodes[k] =~= yx.seen_inodes[k]);
    }
    assert(xy.seen_inodes =~= yx.seen_inodes);
    assert(xy.seen_dirs =~= yx.seen_dirs);
}

/// A path at which the reports place a directory.
spec fn reported_place(events: Seq<EventView>, key: (u64, u64)) -> Seq<ComponentView> {
    let (i, meta) = choose|i: int, meta: FileMeta|
        0 <= i < events.len() && #[trigger] is_dir(events[i], meta) && meta.key() == key;
    events[i]->path
}

/// Looking sizes and places up in agreeing reports changes nothing.
proof fn lemma_settled_run(
    state: GroupState,
    all: Seq<EventView>,
    events: Seq<EventView>,
    step: spec_fn(GroupState, EventView) -> GroupState,
)
    requires
        state.wf(),
        sizes_agree(Some(state.root_dev), all),
        directories_agree(state.targets, all),
        forall|i: int| 0 <= i < events.len() ==> all.contains(#[trigger] events[i]),
        step == (|s: GroupState, e: EventView|
            settled_step(
                s,
                e,
                |key: (u64, u64)| reported_size(Some(state.root_dev), all, key),
                |key: (u64, u64)| reported_place(all, key),
            )),
    ensures
        group_run(state, events) == events.fold_left(state, step),
    decreases events.len(),
{
    if events.len() > 0 {
        let rest = events.drop_last();
        let event = events.last();
        lemma_settled_run(state, all, rest, step);
        lemma_group_run_keeps(state, rest);
        assert(events =~= rest.push(event));
        lemma_group_run_next(state, rest, event);
        let reached = group_run(state, rest);
        assert(all.contains(events[events.len() - 1]));
        let at = all.index_of(event);
        if let EventView::Entry { kind: EntryKind::File, path, meta: Some(meta) } = event {
            if is_linked_file(Some(state.root_dev), event, meta) {
                assert(is_linked_file(Some(state.root_dev), all[at], meta));
                lemma_reported_size(Some(state.root_dev), all, at, meta);
                if lies_under_some(state.targets, path) {
                    assert(step(reached, event).total_bytes =~= charged_once(reached, path, meta));
                } else {
                    assert forall|k: int| 0 <= k < state.targets.len() implies !lies_under(
                        state.targets,
                        k,
                        path,
                    ) by {}
                    assert(step(reached, event).total_bytes =~= reached.total_bytes);
                    assert(step(reached, event).seen_inodes =~= reached.seen_inodes);
                }
            }
        }
        if let EventView::Entry { kind: EntryKind::Dir, path, meta: Some(meta) } = event {
            if is_dir(event, meta) && lies_under_some(state.targets, path) {
                assert(is_dir(all[at], meta));
                let (i, other) = choose|i: int, other: FileMeta|
                    0 <= i < all.len() && #[trigger] is_dir(all[i], other) && other.key()
                        == meta.key();
                let place = reported_place(all, meta.key());
                assert(place == all[i]->path);
                assert forall|k: int| 0 <= k < state.targets.len() implies lies_under(
                    state.targets,
                    k,
                    place,
                ) == lies_under(state.targets, k, path) by {
                    assert(concerns(state.targets, k, all[i]) == concerns(
                        state.targets,
                        k,
                        all[at],
                    ));
                }
                assert(charged(reached.skipped_cross_dev, state.targets, place, 1) =~= charged(
                    reached.skipped_cross_dev,
                    state.targets,
                    path,
                    1,
                ));
            }
        }
        assert(step(reached, event) == group_step(reached, event).0);
    }
}

/// The outcome of a shared scan does not depend on the order in which a parallel walk
/// reports the entries, as long as reports of the same file agree on its size, and
/// reports of the same directory on the targets that it lies under.
pub proof fn law_order_of_shared_reports_is_irrelevant(
    state: GroupState,
    left: Seq<EventView>,
    right: Seq<EventView>,
)
    requires
        state.wf(),
        left.to_multiset() == right.to_multiset(),
        sizes_agree(Some(state.root_dev), left),
        directories_agree(state.targets, left),
    ensures
        group_run(state, left) == group_run(state, right),
{
    broadcast use vstd::seq_lib::group_to_multiset_ensures;

    let sizes = |key: (u64, u64)| reported_size(Some(state.root_dev), left, key);
    let places = |key: (u64, u64)| reported_place(left, key);
    let step = |s: GroupState, e: EventView|
        settled_step(
            s,
            e,
            |key: (u64, u64)| reported_size(Some(state.root_dev), left, key),
            |key: (u64, u64)| reported_place(left, key),
        );
    assert forall|i: int| 0 <= i < left.len() implies left.contains(#[trigger] left[i]) by {}
    assert forall|i: int| 0 <= i < right.len() implies left.contains(#[trigger] right[i]) by {
        assert(right.contains(right[i]));
        assert(right.to_multiset().count(right[i]) > 0);
    }
    lemma_settled_run(state, left, left, step);
    lemma_settled_run(state, left, right, step);
    assert(commutative_foldl(step)) by {
        assert forall|x: EventView, y: EventView, v: GroupState| #[trigger]
            step(step(v, x), y) == step(step(v, y), x) by {
            lemma_settled_steps_commute(v, x, y, sizes, places);
        }
    }
    lemma_fold_left_permutation(left, right, step, state);
}

} // verus!
