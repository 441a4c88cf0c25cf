//! What a directory walk reports, and what it is told to do next.

use crate::arith::{saturated, saturating_product};
use crate::path::{
    file_name_of, is_critical_name, law_critical_names_are_these_seven, ComponentView, ScanPath,
};
use vstd::prelude::*;

verus! {

/// The size of one block as the file system counts them.
pub const BLOCK_BYTES: u64 = 512;

/// The kind of a directory entry, read without following links.
#[derive(Debug, Clone, Copy, PartialEq, Eq, Structural)]
pub enum EntryKind {
    /// The walk could not tell.
    Unknown,
    Symlink,
    Dir,
    File,
    /// A socket, a pipe or a device.
    Other,
}

/// The part of an entry's metadata that accounting needs.
#[derive(Debug, Clone, Copy, PartialEq, Eq, Structural)]
pub struct FileMeta {
    pub dev: u64,
    pub ino: u64,
    /// The number of hard links to the file.
    pub nlink: u64,
    /// The number of blocks allocated to the file.
    pub blocks: u64,
}

impl FileMeta {
    /// What identifies the file: its device and its inode.
    pub open spec fn key(self) -> (u64, u64) {
        (self.dev, self.ino)
    }

    /// The bytes allocated to the file.
    pub open spec fn bytes(self) -> u64 {
        saturated(self.blocks * BLOCK_BYTES)
    }
}

/// What the walk is to do after an entry.
#[derive(Debug, Clone, Copy, PartialEq, Eq, Structural)]
pub enum WalkAction {
    Continue,
    /// Do not enter the directory.
    Skip,
}

/// What is known of an entry before its metadata is read.
#[derive(Debug, Clone, Copy, PartialEq, Eq, Structural)]
pub enum Screening {
    /// The entry is settled without its metadata.
    Settled(WalkAction),
    /// The metadata decides.
    NeedsMetadata,
}

/// One report of the walk.
#[derive(Debug, Clone)]
pub enum WalkEvent {
    /// An entry or a directory could not be read.
    Unreadable,
    /// An entry was reached. `meta` is its metadata, or `None` where it could not
    /// be read; it is looked at only where the entry's kind and path call for it.
    Entry { kind: EntryKind, path: ScanPath, meta: Option<FileMeta> },
}

/// A report of the walk, with the path as a sequence of components.
pub enum EventView {
    Unreadable,
    Entry { kind: EntryKind, path: Seq<ComponentView>, meta: Option<FileMeta> },
}

impl View for WalkEvent {
    type V = EventView;

    open spec fn view(&self) -> EventView {
        match self {
            WalkEvent::Unreadable => EventView::Unreadable,
            WalkEvent::Entry { kind, path, meta } => EventView::Entry {
                kind: *kind,
                path: path@,
                meta: *meta,
            },
        }
    }
}

/// Directories with a critical name are not entered; other directories and files
/// are judged by their metadata; everything else is passed over.
pub open spec fn screening(kind: EntryKind, path: Seq<ComponentView>) -> Screening {
    match kind {
        EntryKind::Dir => if file_name_of(path) matches Some(name) && is_critical_name(name) {
            Screening::Settled(WalkAction::Skip)
        } else {
            Screening::NeedsMetadata
        },
        EntryKind::File => Screening::NeedsMetadata,
        _ => Screening::Settled(WalkAction::Continue),
    }
}

/// Decides what can be decided of an entry without its metadata.
pub fn screen_entry(kind: EntryKind, path: &ScanPath) -> (screened: Screening)
    ensures
        screened == screening(kind, path@),
{
    match kind {
        EntryKind::Dir => {
            if path.is_critical() {
                Screening::Settled(WalkAction::Skip)
            } else {
                Screening::NeedsMetadata
            }
        },
        EntryKind::File => Screening::NeedsMetadata,
        _ => Screening::Settled(WalkAction::Continue),
    }
}

/// The bytes that `blocks` blocks take up.
pub(crate) fn block_bytes(blocks: u64) -> (bytes: u64)
    ensures
        bytes == saturated(blocks * BLOCK_BYTES),
{
    saturating_product(blocks, BLOCK_BYTES)
}

/// Only a directory with one of the seven critical names is left out for its name. Other
/// directories, and all files, are judged by their metadata, and whatever is neither is
/// passed over.
pub proof fn law_only_critical_directories_are_left_out_by_name(
    kind: EntryKind,
    path: Seq<ComponentView>,
)
    ensures
        screening(kind, path) == Screening::Settled(WalkAction::Skip) <==> kind == EntryKind::Dir
            && path.len() > 0 && (path[path.len() - 1] matches ComponentView::Normal(name) && ({
            ||| name == seq![0x2eu8, 0x73, 0x6e, 0x61, 0x70, 0x73, 0x68, 0x6f, 0x74]
            ||| name == seq![0x2eu8, 0x73, 0x6e, 0x61, 0x70, 0x73, 0x68, 0x6f, 0x74, 0x73]
            ||| name == seq![0x2eu8, 0x7a, 0x66, 0x73]
            ||| name == seq![0x70u8, 0x72, 0x6f, 0x63]
            ||| name == seq![0x73u8, 0x79, 0x73]
            ||| name == seq![0x64u8, 0x65, 0x76]
            ||| name == seq![0x2eu8, 0x6e, 0x66, 0x73]
        })),
        screening(kind, path) == Screening::Settled(WalkAction::Continue) <==> kind
            != EntryKind::Dir && kind != EntryKind::File,
{
    if path.len() > 0 {
        if let ComponentView::Normal(name) = path[path.len() - 1] {
            law_critical_names_are_these_seven(name);
        }
    }
}

/// A file takes up 512 bytes for each of its blocks, as far as a `u64` can tell.
pub proof fn law_a_block_is_512_bytes(meta: FileMeta)
    ensures
        meta.blocks * 512 <= u64::MAX ==> meta.bytes() == meta.blocks * 512,
        meta.blocks * 512 > u64::MAX ==> meta.bytes() == u64::MAX,
{
}

/// A file is known by its device and its inode, and by nothing else.
pub proof fn law_files_are_known_by_device_and_inode(left: FileMeta, right: FileMeta)
    ensures
        left.key() == right.key() <==> left.dev == right.dev && left.ino == right.ino,
{
}

/// A report is taken as it was made.
pub proof fn law_reports_are_taken_as_made(event: WalkEvent)
    ensures
        event is Unreadable <==> event@ is Unreadable,
        event matches WalkEvent::Entry { kind, path, meta } ==> event@ == (EventView::Entry {
            kind,
            path: path@,
            meta,
        }),
{
}

} // verus!
