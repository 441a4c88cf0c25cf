//! The accounting of several target directories that share one walk.

use crate::dir_scan::ScanTotals;
use crate::entry::{
    block_bytes, screen_entry, screening, EntryKind, EventView, FileMeta, Screening, WalkAction,
    WalkEvent,
};
use crate::error::ScanError;
use crate::keyset::{held_keys, insert_key, new_key_set};
use crate::path::{contains_path, is_parent_or_same, ComponentView, ScanPath};
use dashmap::DashSet;
use vstd::prelude::*;

verus! {

/// The state of a shared scan. The counters are `u64` and wrap around.
#[verifier::ext_equal]
pub struct GroupState {
    /// The device of the directory that the walk starts from.
    pub root_dev: u64,
    pub targets: Seq<Seq<ComponentView>>,
    /// One counter for each target.
    pub total_bytes: Seq<u64>,
    pub skipped_perm: Seq<u64>,
    pub skipped_cross_dev: Seq<u64>,
    /// For each target, the files with several links that have been counted for it.
    pub seen_inodes: Seq<Set<(u64, u64)>>,
    /// The directories that have been reached, whichever targets they lie under.
    pub seen_dirs: Set<(u64, u64)>,
}

/// The state before the first report.
pub open spec fn group_start(root_dev: u64, targets: Seq<Seq<ComponentView>>) -> GroupState {
    GroupState {
        root_dev,
        targets,
        total_bytes: Seq::new(targets.len(), |k: int| 0u64),
        skipped_perm: Seq::new(targets.len(), |k: int| 0u64),
        skipped_cross_dev: Seq::new(targets.len(), |k: int| 0u64),
        seen_inodes: Seq::new(targets.len(), |k: int| Set::empty()),
        seen_dirs: Set::empty(),
    }
}

/// Whether `path` is target `k` or lies under it.
pub open spec fn lies_under(
    targets: Seq<Seq<ComponentView>>,
    k: int,
    path: Seq<ComponentView>,
) -> bool {
    contains_path(targets[k], path)
}

/// Whether `path` lies under some target.
pub open spec fn lies_under_some(
    targets: Seq<Seq<ComponentView>>,
    path: Seq<ComponentView>,
) -> bool {
    exists|k: int| 0 <= k < targets.len() && #[trigger] lies_under(targets, k, path)
}

/// `counts` with `amount` added for each target that `path` lies under.
pub open spec fn charged(
    counts: Seq<u64>,
    targets: Seq<Seq<ComponentView>>,
    path: Seq<ComponentView>,
    amount: u64,
) -> Seq<u64> {
    Seq::new(
        counts.len(),
        |k: int|
            if lies_under(targets, k, path) {
                counts[k].wrapping_add(amount)
            } else {
                counts[k]
            },
    )
}

/// What can be decided of an entry without its metadata: an entry outside of every
/// target is passed over.
pub open spec fn group_screening(
    targets: Seq<Seq<ComponentView>>,
    kind: EntryKind,
    path: Seq<ComponentView>,
) -> Screening {
    if lies_under_some(targets, path) {
        screening(kind, path)
    } else {
        Screening::Settled(WalkAction::Continue)
    }
}

/// An entry at `path` could not be read: each target that it lies under counts it.
pub open spec fn group_unreadable_at(state: GroupState, path: Seq<ComponentView>) -> GroupState {
    GroupState { skipped_perm: charged(state.skipped_perm, state.targets, path, 1), ..state }
}

/// A directory is entered once, and only on the device of the walk's root. One on
/// another device is counted, for each target that it lies under, the first time it
/// is reached.
pub open spec fn group_after_dir(
    state: GroupState,
    path: Seq<ComponentView>,
    meta: Option<FileMeta>,
) -> (GroupState, WalkAction) {
    match meta {
        None => (group_unreadable_at(state, path), WalkAction::Skip),
        Some(meta) => {
            let reached = GroupState { seen_dirs: state.seen_dirs.insert(meta.key()), ..state };
            if state.seen_dirs.contains(meta.key()) {
                (state, WalkAction::Skip)
            } else if meta.dev != state.root_dev {
                (
                    GroupState {
                        skipped_cross_dev: charged(
                            state.skipped_cross_dev,
                            state.targets,
                            path,
                            1,
                        ),
                        ..reached
                    },
                    WalkAction::Skip,
                )
            } else {
                (reached, WalkAction::Continue)
            }
        },
    }
}

/// The byte counters after a file with several links: each target that it lies under
/// and that has not counted it yet counts it.
pub open spec fn charged_once(
    state: GroupState,
    path: Seq<ComponentView>,
    meta: FileMeta,
) -> Seq<u64> {
    Seq::new(
        state.total_bytes.len(),
        |k: int|
            if lies_under(state.targets, k, path) && !state.seen_inodes[k].contains(meta.key()) {
                state.total_bytes[k].wrapping_add(meta.bytes())
            } else {
                state.total_bytes[k]
            },
    )
}

/// The counted files with several links, after one more at `path`.
pub open spec fn marked(
    state: GroupState,
    path: Seq<ComponentView>,
    meta: FileMeta,
) -> Seq<Set<(u64, u64)>> {
    Seq::new(
        state.seen_inodes.len(),
        |k: int|
            if lies_under(state.targets, k, path) {
                state.seen_inodes[k].insert(meta.key())
            } else {
                state.seen_inodes[k]
            },
    )
}

/// A file on the device of the walk's root adds its bytes to each target that it lies
/// under; one with several links adds them to a target the first time only.
pub open spec fn group_after_file(
    state: GroupState,
    path: Seq<ComponentView>,
    meta: Option<FileMeta>,
) -> GroupState {
    match meta {
        None => group_unreadable_at(state, path),
        Some(meta) => if meta.dev != state.root_dev {
            state
        } else if meta.nlink <= 1 {
            GroupState {
                total_bytes: charged(state.total_bytes, state.targets, path, meta.bytes()),
                ..state
            }
        } else {
            GroupState {
                total_bytes: charged_once(state, path, meta),
                seen_inodes: marked(state, path, meta),
                ..state
            }
        },
    }
}

/// The state after one report, and what the walk does next. A report without a path
/// counts for every target.
pub open spec fn group_step(state: GroupState, event: EventView) -> (GroupState, WalkAction) {
    match event {
        EventView::Unreadable => (
            GroupState {
                skipped_perm: state.skipped_perm.map_values(|n: u64| n.wrapping_add(1)),
                ..state
            },
            WalkAction::Continue,
        ),
        EventView::Entry { kind, path, meta } => match group_screening(state.targets, kind, path) {
            Screening::Settled(action) => (state, action),
            Screening::NeedsMetadata => if kind == EntryKind::Dir {
                group_after_dir(state, path, meta)
            } else {
                (group_after_file(state, path, meta), WalkAction::Continue)
            },
        },
    }
}

/// What the state amounts to for each target.
pub open spec fn group_totals(state: GroupState) -> Seq<ScanTotals> {
    Seq::new(
        state.targets.len(),
        |k: int|
            ScanTotals {
                kb: state.total_bytes[k] / 1024,
                skipped_perm: state.skipped_perm[k],
                skipped_cross_dev: state.skipped_cross_dev[k],
            },
    )
}

/// The targets' paths as sequences of components.
pub open spec fn path_views(paths: Seq<ScanPath>) -> Seq<Seq<ComponentView>> {
    paths.map_values(|p: ScanPath| p@)
}

/// The indexes of the targets that `path` lies under, in ascending order.
pub fn matched_targets(targets: &Vec<ScanPath>, path: &ScanPath) -> (matched: Vec<usize>)
    ensures
        forall|i: int, j: int| 0 <= i < j < matched@.len() ==> matched@[i] < matched@[j],
        forall|k: usize| #[trigger]
            matched@.contains(k) <==> k < targets@.len() && lies_under(
                path_views(targets@),
                k as int,
                path@,
            ),
{
    let mut matched: Vec<usize> = Vec::new();
    let mut k: usize = 0;
    while k < targets.len()
        invariant
            k <= targets@.len(),
            forall|i: int| 0 <= i < matched@.len() ==> #[trigger] matched@[i] < k,
            forall|i: int, j: int| 0 <= i < j < matched@.len() ==> matched@[i] < matched@[j],
            forall|m: usize| #[trigger]
                matched@.contains(m) <==> m < k && lies_under(
                    path_views(targets@),
                    m as int,
                    path@,
                ),
        decreases targets.len() - k,
    {
        let ghost before = matched@;
        if is_parent_or_same(&targets[k], path) {
            matched.push(k);
            proof {
                assert forall|m: usize| #[trigger]
                    matched@.contains(m) <==> before.contains(m) || m == k by {
                    if before.contains(m) {
                        let i = before.index_of(m);
                        assert(matched@[i] == m);
                    }
                    assert(matched@[before.len() as int] == k);
                }
            }
        }
        k = k + 1;
    }
    matched
}

/// Decides what can be decided of an entry without its metadata.
pub fn screen_group_entry(
    targets: &Vec<ScanPath>,
    kind: EntryKind,
    path: &ScanPath,
) -> (screened: Screening)
    ensures
        screened == group_screening(path_views(targets@), kind, path@),
{
    let mut k: usize = 0;
    while k < targets.len()
        invariant
            k <= targets@.len(),
            forall|m: int| 0 <= m < k ==> !#[trigger] lies_under(path_views(targets@), m, path@),
        decreases targets.len() - k,
    {
        if is_parent_or_same(&targets[k], path) {
            assert(lies_under(path_views(targets@), k as int, path@));
            return screen_entry(kind, path);
        }
        k = k + 1;
    }
    Screening::Settled(WalkAction::Continue)
}

/// `count` zeros.
fn zeros(count: usize) -> (counts: Vec<u64>)
    ensures
        counts@ == Seq::new(count as nat, |k: int| 0u64),
{
    let mut counts: Vec<u64> = Vec::new();
    let mut k: usize = 0;
    while k < count
        invariant
            k <= count,
            counts@ == Seq::new(k as nat, |k: int| 0u64),
        decreases count - k,
    {
        counts.push(0);
        k = k + 1;
    }
    counts
}

/// Adds `amount` to each of the counters that `matched` lists.
fn charge(
    counts: &mut Vec<u64>,
    matched: &Vec<usize>,
    amount: u64,
)
    requires
        forall|i: int, j: int| 0 <= i < j < matched@.len() ==> matched@[i] < matched@[j],
        forall|i: int| 0 <= i < matched@.len() ==> #[trigger] matched@[i] < old(counts)@.len(),
    ensures
        final(counts)@.len() == old(counts)@.len(),
        forall|k: usize|
            k < old(counts)@.len() ==> #[trigger] final(counts)@[k as int] == (if matched@.contains(
                k,
            ) {
                old(counts)@[k as int].wrapping_add(amount)
            } else {
                old(counts)@[k as int]
            }),
{
    let mut i: usize = 0;
    while i < matched.len()
        invariant
            i <= matched@.len(),
            counts@.len() == old(counts)@.len(),
            forall|i: int, j: int| 0 <= i < j < matched@.len() ==> matched@[i] < matched@[j],
            forall|i: int| 0 <= i < matched@.len() ==> #[trigger] matched@[i] < counts@.len(),
            forall|k: usize|
                k < counts@.len() ==> #[trigger] counts@[k as int] == (if matched@.take(
                    i as int,
                ).contains(k) {
                    old(counts)@[k as int].wrapping_add(amount)
                } else {
                    old(counts)@[k as int]
                }),
        decreases matched.len() - i,
    {
        let k = matched[i];
        proof {
            lemma_take_next(matched@, i as int);
        }
        let sum: u64 = counts[k].wrapping_add(amount);
        counts.set(k, sum);
        i = i + 1;
    }
    assert(matched@.take(matched@.len() as int) =~= matched@);
}

/// A scan of several target directories, fed with the reports of one walk.
pub struct GroupScan {
    root_dev: u64,
    targets: Vec<ScanPath>,
    total_bytes: Vec<u64>,
    skipped_perm: Vec<u64>,
    skipped_cross_dev: Vec<u64>,
    seen_inodes: Vec<DashSet<(u64, u64)>>,
    seen_dirs: DashSet<(u64, u64)>,
}

impl View for GroupScan {
    type V = GroupState;

    closed spec fn view(&self) -> GroupState {
        GroupState {
            root_dev: self.root_dev,
            targets: path_views(self.targets@),
            total_bytes: self.total_bytes@,
            skipped_perm: self.skipped_perm@,
            skipped_cross_dev: self.skipped_cross_dev@,
            seen_inodes: self.seen_inodes@.map_values(|s: DashSet<(u64, u64)>| held_keys(s)),
            seen_dirs: held_keys(self.seen_dirs),
        }
    }
}

impl GroupState {
    /// Every target has its counters and its set of counted files.
    pub open spec fn wf(self) -> bool {
        &&& self.targets.len() <= usize::MAX
        &&& self.total_bytes.len() == self.targets.len()
        &&& self.skipped_perm.len() == self.targets.len()
        &&& self.skipped_cross_dev.len() == self.targets.len()
        &&& self.seen_inodes.len() == self.targets.len()
    }
}

impl GroupScan {
    /// A scan that has seen nothing yet.
    pub fn new(root_dev: u64, targets: Vec<ScanPath>) -> (scan: Self)
        ensures
            scan@ == group_start(root_dev, path_views(targets@)),
            scan@.wf(),
    {
        let count: usize = targets.len();
        let mut seen_inodes: Vec<DashSet<(u64, u64)>> = Vec::new();
        let mut k: usize = 0;
        while k < count
            invariant
                k <= count,
                seen_inodes@.len() == k,
                forall|m: int|
                    0 <= m < k ==> held_keys(#[trigger] seen_inodes@[m]) == Set::<
                        (u64, u64),
                    >::empty(),
            decreases count - k,
        {
            seen_inodes.push(new_key_set());
            k = k + 1;
        }
        GroupScan {
            root_dev,
            targets,
            total_bytes: zeros(count),
            skipped_perm: zeros(count),
            skipped_cross_dev: zeros(count),
            seen_inodes,
            seen_dirs: new_key_set(),
        }
    }

    /// The scan of `targets` on a walk from `root`, which fails where the root's metadata
    /// cannot be read. `root_dev` is the root's device, or why it is not known.
    pub fn open(
        root: &String,
        root_dev: Result<u64, String>,
        targets: Vec<ScanPath>,
    ) -> (scan: Result<Self, ScanError>)
        ensures
            scan is Ok <==> root_dev is Ok,
            match scan {
                Ok(scan) => {
                    &&& scan@ == group_start(root_dev->Ok_0, path_views(targets@))
                    &&& scan@.wf()
                },
                Err(error) => error == (ScanError::Metadata {
                    path: *root,
                    cause: root_dev->Err_0,
                }),
            },
    {
        match root_dev {
            Ok(dev) => Ok(GroupScan::new(dev, targets)),
            Err(cause) => Err(ScanError::Metadata { path: root.clone(), cause }),
        }
    }

    fn count_unreadable(&mut self)
        requires
            old(self)@.wf(),
        ensures
            final(self)@ == (GroupState {
                skipped_perm: old(self)@.skipped_perm.map_values(|n: u64| n.wrapping_add(1)),
                ..old(self)@
            }),
    {
        let mut k: usize = 0;
        while k < self.skipped_perm.len()
            invariant
                k <= self.skipped_perm@.len() == old(self).skipped_perm@.len(),
                *self == (GroupScan { skipped_perm: self.skipped_perm, ..*old(self) }),
                forall|m: int|
                    0 <= m < k ==> self.skipped_perm@[m] == old(self).skipped_perm@[m].wrapping_add(
                        1,
                    ),
                forall|m: int|
                    k <= m < self.skipped_perm@.len() ==> self.skipped_perm@[m] == old(
                        self,
                    ).skipped_perm@[m],
            decreases self.skipped_perm.len() - k,
        {
            let sum: u64 = self.skipped_perm[k].wrapping_add(1);
            self.skipped_perm.set(k, sum);
            k = k + 1;
        }
    }

    fn enter_dir(&mut self, path: &ScanPath, meta: Option<FileMeta>) -> (action: WalkAction)
        requires
            old(self)@.wf(),
        ensures
            (final(self)@, action) == group_after_dir(old(self)@, path@, meta),
    {
        let matched = matched_targets(&self.targets, path);
        proof {
            assert forall|i: int| 0 <= i < matched@.len() implies #[trigger] matched@[i]
                < self.targets@.len() by {
                assert(matched@.contains(matched@[i]));
            }
        }
        let meta = match meta {
            Some(meta) => meta,
            None => {
                charge(&mut self.skipped_perm, &matched, 1);
                proof {
                    lemma_charged(
                        old(self)@.skipped_perm,
                        self@.skipped_perm,
                        self.targets@,
                        path,
                        matched@,
                        1,
                    );
                }
                return WalkAction::Skip;
            },
        };
        if !insert_key(&mut self.seen_dirs, (meta.dev, meta.ino)) {
            proof {
                assert(held_keys(self.seen_dirs) =~= old(self)@.seen_dirs);
            }
            return WalkAction::Skip;
        }
        if meta.dev != self.root_dev {
            charge(&mut self.skipped_cross_dev, &matched, 1);
            proof {
                lemma_charged(
                    old(self)@.skipped_cross_dev,
                    self@.skipped_cross_dev,
                    self.targets@,
                    path,
                    matched@,
                    1,
                );
            }
            return WalkAction::Skip;
        }
        WalkAction::Continue
    }

    /// Counts a file with several links for each listed target that has not counted
    /// it yet.
    fn count_linked(&mut self, matched: &Vec<usize>, meta: FileMeta)
        requires
            old(self)@.wf(),
            forall|i: int, j: int| 0 <= i < j < matched@.len() ==> matched@[i] < matched@[j],
            forall|i: int|
                0 <= i < matched@.len() ==> #[trigger] matched@[i] < old(self)@.targets.len(),
        ensures
            final(self)@ == (GroupState {
                total_bytes: final(self)@.total_bytes,
                seen_inodes: final(self)@.seen_inodes,
                ..old(self)@
            }),
            final(self)@.wf(),
            forall|k: usize|
                k < old(self)@.targets.len() ==> #[trigger] final(self)@.total_bytes[k as int] == (
                if matched@.contains(k) && !old(self)@.seen_inodes[k as int].contains(meta.key()) {
                    old(self)@.total_bytes[k as int].wrapping_add(meta.bytes())
                } else {
                    old(self)@.total_bytes[k as int]
                }),
            forall|k: usize|
                k < old(self)@.targets.len() ==> #[trigger] final(self)@.seen_inodes[k as int] == (
                if matched@.contains(k) {
                    old(self)@.seen_inodes[k as int].insert(meta.key())
                } else {
                    old(self)@.seen_inodes[k as int]
                }),
    {
        let bytes: u64 = block_bytes(meta.blocks);
        let mut i: usize = 0;
        while i < matched.len()
            invariant
                i <= matched@.len(),
                bytes == meta.bytes(),
                old(self)@.wf(),
                self@.wf(),
                *self == (GroupScan {
                    total_bytes: self.total_bytes,
                    seen_inodes: self.seen_inodes,
                    ..*old(self)
                }),
                forall|i: int, j: int| 0 <= i < j < matched@.len() ==> matched@[i] < matched@[j],
                forall|i: int|
                    0 <= i < matched@.len() ==> #[trigger] matched@[i] < self@.targets.len(),
                forall|k: usize|
                    k < self@.targets.len() ==> #[trigger] self.total_bytes@[k as int] == (
                    if matched@.take(i as int).contains(k) && !old(
                        self,
                    )@.seen_inodes[k as int].contains(meta.key()) {
                        old(self)@.total_bytes[k as int].wrapping_add(meta.bytes())
                    } else {
                        old(self)@.total_bytes[k as int]
                    }),
                forall|k: usize|
                    k < self@.targets.len() ==> held_keys(#[trigger] self.seen_inodes@[k as int])
                        == (if matched@.take(i as int).contains(k) {
                        old(self)@.seen_inodes[k as int].insert(meta.key())
                    } else {
                        old(self)@.seen_inodes[k as int]
                    }),
            decreases matched.len() - i,
        {
            let k = matched[i];
            proof {
                lemma_take_next(matched@, i as int);
            }
            let fresh = insert_key(&mut self.seen_inodes[k], (meta.dev, meta.ino));
            if fresh {
                let sum: u64 = self.total_bytes[k].wrapping_add(bytes);
                self.total_bytes.set(k, sum);
            }
            i = i + 1;
        }
        assert(matched@.take(matched@.len() as int) =~= matched@);
    }

    fn count_file(&mut self, path: &ScanPath, meta: Option<FileMeta>)
        requires
            old(self)@.wf(),
        ensures
            final(self)@ == group_after_file(old(self)@, path@, meta),
    {
        let matched = matched_targets(&self.targets, path);
        proof {
            assert forall|i: int| 0 <= i < matched@.len() implies #[trigger] matched@[i]
                < self.targets@.len() by {
                assert(matched@.contains(matched@[i]));
            }
        }
        let meta = match meta {
            Some(meta) => meta,
            None => {
                charge(&mut self.skipped_perm, &matched, 1);
                proof {
                    lemma_charged(
                        old(self)@.skipped_perm,
                        self@.skipped_perm,
                        self.targets@,
                        path,
                        matched@,
                        1,
                    );
                }
                return;
            },
        };
        if meta.dev != self.root_dev {
            return;
        }
        if meta.nlink <= 1 {
            let bytes: u64 = block_bytes(meta.blocks);
            charge(&mut self.total_bytes, &matched, bytes);
            proof {
                lemma_charged(
                    old(self)@.total_bytes,
                    self@.total_bytes,
                    self.targets@,
                    path,
                    matched@,
                    bytes,
                );
            }
        } else {
            self.count_linked(&matched, meta);
            proof {
                let before = old(self)@;
                assert forall|k: int| 0 <= k < before.targets.len() implies {
                    &&& #[trigger] self@.total_bytes[k] == charged_once(before, path@, meta)[k]
                    &&& self@.seen_inodes[k] == marked(before, path@, meta)[k]
                } by {
                    let m = k as usize;
                    assert(self@.total_bytes[m as int] == self@.total_bytes[k]);
                    assert(self@.seen_inodes[m as int] == self@.seen_inodes[k]);
                    assert(matched@.contains(m) == lies_under(before.targets, k, path@));
                }
                assert(self@.total_bytes =~= charged_once(before, path@, meta));
                assert(self@.seen_inodes =~= marked(before, path@, meta));
            }
        }
    }

    /// Takes in one report of the walk and says what the walk does next.
    pub fn step(&mut self, event: &WalkEvent) -> (action: WalkAction)
        requires
            old(self)@.wf(),
        ensures
            (final(self)@, action) == group_step(old(self)@, event@),
            final(self)@.wf(),
    {
        match event {
            WalkEvent::Unreadable => {
                self.count_unreadable();
                WalkAction::Continue
            },
            WalkEvent::Entry { kind, path, meta } => {
                match screen_group_entry(&self.targets, *kind, path) {
                    Screening::Settled(action) => action,
                    Screening::NeedsMetadata => {
                        if *kind == EntryKind::Dir {
                            self.enter_dir(path, *meta)
                        } else {
                            self.count_file(path, *meta);
                            WalkAction::Continue
                        }
                    },
                }
            },
        }
    }

    /// The result so far, for each target.
    pub fn totals(&self) -> (totals: Vec<ScanTotals>)
        requires
            self@.wf(),
        ensures
            totals@ == group_totals(self@),
    {
        let mut totals: Vec<ScanTotals> = Vec::new();
        let mut k: usize = 0;
        while k < self.targets.len()
            invariant
                self@.wf(),
                k <= self.targets@.len(),
                totals@ == group_totals(self@).take(k as int),
            decreases self.targets.len() - k,
        {
            totals.push(
                ScanTotals {
                    kb: self.total_bytes[k] / 1024,
                    skipped_perm: self.skipped_perm[k],
                    skipped_cross_dev: self.skipped_cross_dev[k],
                },
            );
            k = k + 1;
            assert(totals@ =~= group_totals(self@).take(k as int));
        }
        assert(group_totals(self@).take(k as int) =~= group_totals(self@));
        totals
    }
}

/// An ascending list splits into what was taken of it and the next item.
proof fn lemma_take_next(list: Seq<usize>, i: int)
    requires
        0 <= i < list.len(),
        forall|i: int, j: int| 0 <= i < j < list.len() ==> list[i] < list[j],
    ensures
        !list.take(i).contains(list[i]),
        forall|k: usize| #[trigger]
            list.take(i + 1).contains(k) <==> list.take(i).contains(k) || k == list[i],
{
    let done = list.take(i);
    if done.contains(list[i]) {
        let j = done.index_of(list[i]);
        assert(list[j] == list[i]);
    }
    assert(list.take(i + 1) =~= done.push(list[i]));
    assert forall|k: usize| #[trigger]
        list.take(i + 1).contains(k) <==> done.contains(k) || k == list[i] by {
        if done.contains(k) {
            assert(done.push(list[i])[done.index_of(k)] == k);
        }
        assert(done.push(list[i])[i] == list[i]);
    }
}

/// What `charge` does to the counters that `matched_targets` lists.
proof fn lemma_charged(
    before: Seq<u64>,
    after: Seq<u64>,
    targets: Seq<ScanPath>,
    path: &ScanPath,
    matched: Seq<usize>,
    amount: u64,
)
    requires
        before.len() == targets.len() <= usize::MAX,
        after.len() == before.len(),
        forall|k: usize| #[trigger]
            matched.contains(k) <==> k < targets.len() && lies_under(
                path_views(targets),
                k as int,
                path@,
            ),
        forall|k: usize|
            k < before.len() ==> #[trigger] after[k as int] == (if matched.contains(k) {
                before[k as int].wrapping_add(amount)
            } else {
                before[k as int]
            }),
    ensures
        after == charged(before, path_views(targets), path@, amount),
{
    assert forall|k: int| 0 <= k < after.len() implies after[k] == charged(
        before,
        path_views(targets),
        path@,
        amount,
    )[k] by {
        let m = k as usize;
        assert(after[m as int] == after[k]);
        assert(matched.contains(m) == lies_under(path_views(targets), k, path@));
    }
    assert(after =~= charged(before, path_views(targets), path@, amount));
}

} // verus!
