//! The estimated cost of a walk.

use crate::arith::{saturated, saturating_product};
use crate::entry::{block_bytes, EntryKind, BLOCK_BYTES};
use vstd::prelude::*;

verus! {

/// How many entries of a directory are looked at for an estimate.
pub const MAX_SAMPLE_ENTRIES: usize = 4096;

/// What each path of a group adds to the estimate.
pub const PATH_WEIGHT: u64 = 1_000_000;

/// What each directory in the sample adds to the estimate.
pub const DIR_WEIGHT: u64 = 200_000;

/// What each file in the sample adds to the estimate.
pub const FILE_WEIGHT: u64 = 20_000;

/// How many of `kinds` are `kind`.
pub open spec fn count_of(kinds: Seq<EntryKind>, kind: EntryKind) -> int
    decreases kinds.len(),
{
    if kinds.len() == 0 {
        0
    } else {
        count_of(kinds.drop_last(), kind) + if kinds.last() == kind {
            1int
        } else {
            0int
        }
    }
}

/// The part of a listing that is looked at.
pub open spec fn sampled(listing: Seq<EntryKind>) -> Seq<EntryKind> {
    if listing.len() > MAX_SAMPLE_ENTRIES {
        listing.take(MAX_SAMPLE_ENTRIES as int)
    } else {
        listing
    }
}

/// What the entries of the root directory add, where they could be listed.
pub open spec fn fanout_weight(listing: Option<Seq<EntryKind>>) -> int {
    match listing {
        Some(listing) => count_of(sampled(listing), EntryKind::Dir) * DIR_WEIGHT + count_of(
            sampled(listing),
            EntryKind::File,
        ) * FILE_WEIGHT,
        None => 0,
    }
}

/// What the blocks of the root directory add, where they are known.
pub open spec fn own_weight(blocks: Option<u64>) -> int {
    match blocks {
        Some(blocks) => blocks * BLOCK_BYTES,
        None => 0,
    }
}

/// The estimate: the sum of what the paths, the root directory and its entries add.
pub open spec fn path_weight(
    group_size: int,
    blocks: Option<u64>,
    listing: Option<Seq<EntryKind>>,
) -> u64 {
    saturated(group_size * PATH_WEIGHT + own_weight(blocks) + fanout_weight(listing))
}

/// Estimates the cost of a walk for `group_size` paths. `blocks` is the size of the
/// directory that it starts from, and `listing` the kinds of that directory's entries,
/// each where it could be read; an entry that could not be read is `Unknown`.
pub fn estimate_path_weight(
    group_size: usize,
    blocks: Option<u64>,
    listing: Option<&Vec<EntryKind>>,
) -> (weight: u64)
    ensures
        weight == path_weight(
            group_size as int,
            blocks,
            match listing {
                Some(listing) => Some(listing@),
                None => None,
            },
        ),
{
    let mut weight: u64 = saturating_product(group_size as u64, PATH_WEIGHT);
    assert(0 <= group_size * PATH_WEIGHT) by (nonlinear_arith)
        requires
            0 <= group_size,
            0 <= PATH_WEIGHT,
    ;
    if let Some(blocks) = blocks {
        assert(0 <= blocks * BLOCK_BYTES) by (nonlinear_arith)
            requires
                0 <= blocks,
                0 <= BLOCK_BYTES,
        ;
        weight = weight.saturating_add(block_bytes(blocks));
    }
    let listing = match listing {
        Some(listing) => listing,
        None => {
            return weight;
        },
    };
    let mut dirs: u64 = 0;
    let mut files: u64 = 0;
    let mut seen: usize = 0;
    assert(listing@.take(0) =~= Seq::<EntryKind>::empty());
    while seen < listing.len() && seen < MAX_SAMPLE_ENTRIES
        invariant
            seen <= listing@.len(),
            seen <= MAX_SAMPLE_ENTRIES,
            dirs + files <= seen,
            dirs == count_of(listing@.take(seen as int), EntryKind::Dir),
            files == count_of(listing@.take(seen as int), EntryKind::File),
        decreases MAX_SAMPLE_ENTRIES - seen,
    {
        let kind = listing[seen];
        assert(listing@.take(seen + 1).drop_last() =~= listing@.take(seen as int));
        if kind == EntryKind::Dir {
            dirs = dirs + 1;
        } else if kind == EntryKind::File {
            files = files + 1;
        }
        seen = seen + 1;
    }
    assert(listing@.take(seen as int) =~= sampled(listing@));
    weight.saturating_add(dirs * DIR_WEIGHT + files * FILE_WEIGHT)
}

/// A larger group weighs no less. Below the largest weight it weighs more by the weight
/// of the paths that it has more.
pub proof fn law_weight_grows_with_the_group(
    smaller: int,
    larger: int,
    blocks: Option<u64>,
    listing: Option<Seq<EntryKind>>,
)
    requires
        0 <= smaller <= larger,
    ensures
        path_weight(smaller, blocks, listing) <= path_weight(larger, blocks, listing),
        path_weight(larger, blocks, listing) < u64::MAX ==> path_weight(larger, blocks, listing)
            - path_weight(smaller, blocks, listing) == (larger - smaller) * PATH_WEIGHT,
{
    if let Some(listing) = listing {
        lemma_count_is_natural(sampled(listing), EntryKind::Dir);
        lemma_count_is_natural(sampled(listing), EntryKind::File);
    }
}

proof fn lemma_count_is_natural(kinds: Seq<EntryKind>, kind: EntryKind)
    ensures
        0 <= count_of(kinds, kind) <= kinds.len(),
    decreases kinds.len(),
{
    if kinds.len() > 0 {
        lemma_count_is_natural(kinds.drop_last(), kind);
    }
}

/// Without entries to look at, a walk costs a million for each of its paths and the bytes
/// of the directory that it starts from, as far as a `u64` can tell.
pub proof fn law_weight_of_paths_and_blocks(
    group_size: int,
    blocks: u64,
    listing: Option<Seq<EntryKind>>,
)
    requires
        0 <= group_size,
        listing is Some ==> listing->0.len() == 0,
    ensures
        ({
            let paths = group_size * 1_000_000;
            let bytes = blocks * 512;
            &&& path_weight(group_size, None, listing) == (if paths > u64::MAX {
                u64::MAX as int
            } else {
                paths
            })
            &&& path_weight(group_size, Some(blocks), listing) == (if paths + bytes > u64::MAX {
                u64::MAX as int
            } else {
                paths + bytes
            })
        }),
{
    assert(fanout_weight(listing) == 0) by {
        if let Some(entries) = listing {
            assert(sampled(entries).len() == 0);
        }
    }
}

/// Each of the first 4096 entries that is a directory adds 200000 to the estimate, and each
/// that is a file 20000, as far as a `u64` can tell. Whatever else is there, and whatever
/// comes later, adds nothing.
pub proof fn law_weight_of_one_more_entry(
    group_size: int,
    blocks: Option<u64>,
    listing: Seq<EntryKind>,
    kind: EntryKind,
)
    requires
        0 <= group_size,
    ensures
        ({
            let before = path_weight(group_size, blocks, Some(listing));
            let after = path_weight(group_size, blocks, Some(listing.push(kind)));
            let more = if listing.len() >= 4096 {
                0int
            } else if kind == EntryKind::Dir {
                200_000int
            } else if kind == EntryKind::File {
                20_000int
            } else {
                0int
            };
            after == (if before + more > u64::MAX {
                u64::MAX as int
            } else {
                before + more
            })
        }),
{
    let longer = listing.push(kind);
    lemma_count_is_natural(sampled(listing), EntryKind::Dir);
    lemma_count_is_natural(sampled(listing), EntryKind::File);
    assert(own_weight(blocks) >= 0);
    assert(group_size * PATH_WEIGHT >= 0);
    if listing.len() >= 4096 {
        assert(sampled(longer) =~= sampled(listing));
    } else {
        assert(sampled(longer) =~= sampled(listing).push(kind));
        assert(sampled(listing).push(kind).drop_last() =~= sampled(listing));
    }
}

} // verus!
