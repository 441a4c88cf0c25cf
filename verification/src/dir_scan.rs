//! The accounting of one directory tree.

use crate::entry::{
    block_bytes, screen_entry, screening, EntryKind, EventView, FileMeta, Screening, WalkAction,
    WalkEvent,
};
use crate::error::ScanError;
use crate::keyset::{held_keys, insert_key, new_key_set};
use dashmap::DashSet;
use vstd::prelude::*;

verus! {

/// The result of a scan.
#[derive(Debug, Clone, Copy, PartialEq, Eq, Structural)]
pub struct ScanTotals {
    /// Allocated space, in units of 1024 bytes, rounded down.
    pub kb: u64,
    /// How many entries could not be read.
    pub skipped_perm: u64,
    /// How many directories were left out because they lie on another device.
    pub skipped_cross_dev: u64,
}

/// The state of a scan. The counters are `u64` and wrap around.
#[verifier::ext_equal]
pub struct DirState {
    /// The device of the scanned directory, where it is known.
    pub root_dev: Option<u64>,
    pub total_bytes: u64,
    pub skipped_perm: u64,
    pub skipped_cross_dev: u64,
    /// The files with several links that have been counted.
    pub seen_inodes: Set<(u64, u64)>,
    /// The directories that have been reached.
    pub seen_dirs: Set<(u64, u64)>,
}

/// The state before the first report.
pub open spec fn dir_start(root_dev: Option<u64>) -> DirState {
    DirState {
        root_dev,
        total_bytes: 0,
        skipped_perm: 0,
        skipped_cross_dev: 0,
        seen_inodes: Set::empty(),
        seen_dirs: Set::empty(),
    }
}

/// Whether `dev` is known to be another device than the scanned directory's.
pub open spec fn off_device(root_dev: Option<u64>, dev: u64) -> bool {
    root_dev matches Some(root) && root != dev
}

/// One more entry could not be read.
pub open spec fn with_unreadable(state: DirState) -> DirState {
    DirState { skipped_perm: state.skipped_perm.wrapping_add(1), ..state }
}

/// A directory is entered once, and only on the device of the scanned directory. One
/// on another device is counted the first time it is reached.
pub open spec fn after_dir(state: DirState, meta: Option<FileMeta>) -> (DirState, WalkAction) {
    match meta {
        None => (with_unreadable(state), WalkAction::Skip),
        Some(meta) => {
            let reached = DirState { seen_dirs: state.seen_dirs.insert(meta.key()), ..state };
            if state.seen_dirs.contains(meta.key()) {
                (state, WalkAction::Skip)
            } else if off_device(state.root_dev, meta.dev) {
                (
                    DirState {
                        skipped_cross_dev: state.skipped_cross_dev.wrapping_add(1),
                        ..reached
                    },
                    WalkAction::Skip,
                )
            } else {
                (reached, WalkAction::Continue)
            }
        },
    }
}

/// A file on the device of the scanned directory adds its bytes; one with several
/// links adds them the first time only.
pub open spec fn after_file(state: DirState, meta: Option<FileMeta>) -> DirState {
    match meta {
        None => with_unreadable(state),
        Some(meta) => {
            let added = DirState {
                total_bytes: state.total_bytes.wrapping_add(meta.bytes()),
                ..state
            };
            if off_device(state.root_dev, meta.dev) {
                state
            } else if meta.nlink <= 1 {
                added
            } else if state.seen_inodes.contains(meta.key()) {
                state
            } else {
                DirState { seen_inodes: state.seen_inodes.insert(meta.key()), ..added }
            }
        },
    }
}

/// The state after one report, and what the walk does next.
pub open spec fn dir_step(state: DirState, event: EventView) -> (DirState, WalkAction) {
    match event {
        EventView::Unreadable => (with_unreadable(state), WalkAction::Continue),
        EventView::Entry { kind, path, meta } => match screening(kind, path) {
            Screening::Settled(action) => (state, action),
            Screening::NeedsMetadata => if kind == EntryKind::Dir {
                after_dir(state, meta)
            } else {
                (after_file(state, meta), WalkAction::Continue)
            },
        },
    }
}

/// What the state amounts to as a result.
pub open spec fn dir_totals(state: DirState) -> ScanTotals {
    ScanTotals {
        kb: state.total_bytes / 1024,
        skipped_perm: state.skipped_perm,
        skipped_cross_dev: state.skipped_cross_dev,
    }
}

/// A scan of one directory tree, fed with the reports of a walk.
pub struct DirScan {
    root_dev: Option<u64>,
    total_bytes: u64,
    skipped_perm: u64,
    skipped_cross_dev: u64,
    seen_inodes: DashSet<(u64, u64)>,
    seen_dirs: DashSet<(u64, u64)>,
}

impl View for DirScan {
    type V = DirState;

    closed spec fn view(&self) -> DirState {
        DirState {
            root_dev: self.root_dev,
            total_bytes: self.total_bytes,
            skipped_perm: self.skipped_perm,
            skipped_cross_dev: self.skipped_cross_dev,
            seen_inodes: held_keys(self.seen_inodes),
            seen_dirs: held_keys(self.seen_dirs),
        }
    }
}

impl DirScan {
    /// A scan that has seen nothing yet.
    pub fn new(root_dev: Option<u64>) -> (scan: Self)
        ensures
            scan@ == dir_start(root_dev),
    {
        DirScan {
            root_dev,
            total_bytes: 0,
            skipped_perm: 0,
            skipped_cross_dev: 0,
            seen_inodes: new_key_set(),
            seen_dirs: new_key_set(),
        }
    }

    /// The scan of the directory at `path`, which fails where nothing is there. `root_dev`
    /// is the directory's device, where it is known.
    pub fn open(path: &String, exists: bool, root_dev: Option<u64>) -> (scan: Result<
        Self,
        ScanError,
    >)
        ensures
            scan is Ok <==> exists,
            match scan {
                Ok(scan) => scan@ == dir_start(root_dev),
                Err(error) => error == (ScanError::PathNotFound { path: *path }),
            },
    {
        if exists {
            Ok(DirScan::new(root_dev))
        } else {
            Err(ScanError::PathNotFound { path: path.clone() })
        }
    }

    fn is_off_device(&self, dev: u64) -> (off: bool)
        ensures
            off == off_device(self@.root_dev, dev),
    {
        match self.root_dev {
            Some(root) => root != dev,
            None => false,
        }
    }

    fn enter_dir(&mut self, meta: Option<FileMeta>) -> (action: WalkAction)
        ensures
            (final(self)@, action) == after_dir(old(self)@, meta),
    {
        let meta = match meta {
            Some(meta) => meta,
            None => {
                self.skipped_perm = self.skipped_perm.wrapping_add(1);
                return WalkAction::Skip;
            },
        };
        if !insert_key(&mut self.seen_dirs, (meta.dev, meta.ino)) {
            proof {
                assert(held_keys(self.seen_dirs) =~= old(self)@.seen_dirs);
            }
            return WalkAction::Skip;
        }
        if self.is_off_device(meta.dev) {
            self.skipped_cross_dev = self.skipped_cross_dev.wrapping_add(1);
            return WalkAction::Skip;
        }
        WalkAction::Continue
    }

    fn count_file(&mut self, meta: Option<FileMeta>)
        ensures
            final(self)@ == after_file(old(self)@, meta),
    {
        let meta = match meta {
            Some(meta) => meta,
            None => {
                self.skipped_perm = self.skipped_perm.wrapping_add(1);
                return;
            },
        };
        if self.is_off_device(meta.dev) {
            return;
        }
        if meta.nlink <= 1 {
            self.total_bytes = self.total_bytes.wrapping_add(block_bytes(meta.blocks));
            return;
        }
        if insert_key(&mut self.seen_inodes, (meta.dev, meta.ino)) {
            self.total_bytes = self.total_bytes.wrapping_add(block_bytes(meta.blocks));
        } else {
            proof {
                assert(held_keys(self.seen_inodes) =~= old(self)@.seen_inodes);
            }
        }
    }

    /// Takes in one report of the walk and says what the walk does next.
    pub fn step(&mut self, event: &WalkEvent) -> (action: WalkAction)
        ensures
            (final(self)@, action) == dir_step(old(self)@, event@),
    {
        match event {
            WalkEvent::Unreadable => {
                self.skipped_perm = self.skipped_perm.wrapping_add(1);
                WalkAction::Continue
            },
            WalkEvent::Entry { kind, path, meta } => {
                match screen_entry(*kind, path) {
                    Screening::Settled(action) => action,
                    Screening::NeedsMetadata => {
                        if *kind == EntryKind::Dir {
                            self.enter_dir(*meta)
                        } else {
                            self.count_file(*meta);
                            WalkAction::Continue
                        }
                    },
                }
            },
        }
    }

    /// The result so far.
    pub fn totals(&self) -> (totals: ScanTotals)
        ensures
            totals == dir_totals(self@),
    {
        ScanTotals {
            kb: self.total_bytes / 1024,
            skipped_perm: self.skipped_perm,
            skipped_cross_dev: self.skipped_cross_dev,
        }
    }
}

} // verus!
