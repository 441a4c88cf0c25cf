//! What a part of a walk's reports amounts to, beside all of them.

use crate::accounting::{
    added_bytes, added_cross_dev, added_unreadable, dir_run, is_dir, is_linked_file,
    law_totals_count_the_reports, lemma_reported_size, linked_before, reached_before,
    reported_size, sizes_agree, sum_of,
};
use crate::dir_scan::{dir_start, dir_totals, off_device, ScanTotals};
use crate::entry::{EntryKind, EventView, FileMeta};
use vstd::prelude::*;

verus! {

/// What a report adds to a counter. Where it has a key, only the first report with that
/// key adds anything.
struct Charge {
    key: Option<(u64, u64)>,
    amount: int,
}

/// What each report adds to a counter.
type Charging = spec_fn(EventView) -> Charge;

/// Whether one of the reports has this key.
spec fn has_key(events: Seq<EventView>, charging: Charging, key: (u64, u64)) -> bool {
    exists|j: int| 0 <= j < events.len() && charging(#[trigger] events[j]).key == Some(key)
}

/// The counter after the reports, where the keys in `seen` have been counted before.
spec fn counted(events: Seq<EventView>, charging: Charging, seen: Set<(u64, u64)>) -> int
    decreases events.len(),
{
    if events.len() == 0 {
        0
    } else {
        let rest = events.drop_last();
        counted(rest, charging, seen) + added(rest, charging, seen, events.last())
    }
}

/// What one more report adds after `events`.
spec fn added(
    events: Seq<EventView>,
    charging: Charging,
    seen: Set<(u64, u64)>,
    event: EventView,
) -> int {
    match charging(event).key {
        Some(key) => if seen.contains(key) || has_key(events, charging, key) {
            0
        } else {
            charging(event).amount
        },
        None => charging(event).amount,
    }
}

/// Whether the reports add no negative amounts, and those with a key add the amount that
/// `amounts` gives for it.
spec fn amounts_are(
    events: Seq<EventView>,
    charging: Charging,
    amounts: spec_fn((u64, u64)) -> int,
) -> bool {
    forall|i: int|
        0 <= i < events.len() ==> {
            let charge = charging(#[trigger] events[i]);
            &&& 0 <= charge.amount
            &&& charge.key matches Some(key) ==> charge.amount == amounts(key)
        }
}

proof fn lemma_has_key_next(
    events: Seq<EventView>,
    charging: Charging,
    event: EventView,
    key: (u64, u64),
)
    ensures
        has_key(events.push(event), charging, key) <==> has_key(events, charging, key) || charging(
            event,
        ).key == Some(key),
{
    let longer = events.push(event);
    if has_key(events, charging, key) {
        let j = choose|j: int|
            0 <= j < events.len() && charging(#[trigger] events[j]).key == Some(key);
        assert(longer[j] == events[j]);
    }
    if charging(event).key == Some(key) {
        assert(longer[events.len() as int] == event);
    }
}

/// Reports add their amounts beside one key that has been counted before, but for those
/// with that key.
proof fn lemma_counted_before(
    events: Seq<EventView>,
    charging: Charging,
    amounts: spec_fn((u64, u64)) -> int,
    seen: Set<(u64, u64)>,
    key: (u64, u64),
)
    requires
        amounts_are(events, charging, amounts),
        !seen.contains(key),
    ensures
        counted(events, charging, seen) == counted(events, charging, seen.insert(key)) + (
        if has_key(events, charging, key) {
            amounts(key)
        } else {
            0
        }),
    decreases events.len(),
{
    if events.len() > 0 {
        let rest = events.drop_last();
        let event = events.last();
        assert(events[events.len() - 1] == event);
        assert(events =~= rest.push(event));
        lemma_counted_before(rest, charging, amounts, seen, key);
        lemma_has_key_next(rest, charging, event, key);
    }
}

/// Taking out a report without a key, or with one that has been counted before, takes
/// away what it adds.
proof fn lemma_counted_without(
    events: Seq<EventView>,
    charging: Charging,
    seen: Set<(u64, u64)>,
    p: int,
)
    requires
        0 <= p < events.len(),
        charging(events[p]).key matches Some(key) ==> seen.contains(key),
    ensures
        counted(events, charging, seen) == counted(events.remove(p), charging, seen) + (
        if charging(events[p]).key is None {
            charging(events[p]).amount
        } else {
            0
        }),
    decreases events.len(),
{
    let rest = events.drop_last();
    let fewer = events.remove(p);
    if p == events.len() - 1 {
        assert(fewer =~= rest);
    } else {
        lemma_counted_without(rest, charging, seen, p);
        assert(fewer.drop_last() =~= rest.remove(p));
        assert(fewer.last() == events.last());
        if let Some(key) = charging(events.last()).key {
            if !seen.contains(key) {
                if has_key(rest, charging, key) {
                    let j = choose|j: int|
                        0 <= j < rest.len() && charging(#[trigger] rest[j]).key == Some(key);
                    assert(j != p);
                    let at = if j < p {
                        j
                    } else {
                        j - 1
                    };
                    assert(rest.remove(p)[at] == rest[j]);
                }
                if has_key(rest.remove(p), charging, key) {
                    let j = choose|j: int|
                        0 <= j < rest.remove(p).len() && charging(#[trigger] rest.remove(p)[j]).key
                            == Some(key);
                    let at = if j < p {
                        j
                    } else {
                        j + 1
                    };
                    assert(rest[at] == rest.remove(p)[j]);
                }
            }
        }
    }
}

/// A part of the reports, in whatever order, counts for no more than all of them.
proof fn lemma_part_counts_no_more(
    events: Seq<EventView>,
    part: Seq<EventView>,
    charging: Charging,
    amounts: spec_fn((u64, u64)) -> int,
    seen: Set<(u64, u64)>,
)
    requires
        amounts_are(events, charging, amounts),
        part.to_multiset().subset_of(events.to_multiset()),
    ensures
        0 <= counted(part, charging, seen) <= counted(events, charging, seen),
    decreases part.len(), events.len(),
{
    broadcast use vstd::seq_lib::group_to_multiset_ensures;

    if part.len() == 0 {
        if events.len() > 0 {
            let rest = events.drop_last();
            assert(events[events.len() - 1] == events.last());
            assert(part.to_multiset().subset_of(rest.to_multiset()));
            lemma_part_counts_no_more(rest, part, charging, amounts, seen);
        }
    } else {
        let fewer = part.drop_last();
        let event = part.last();
        let charge = charging(event);
        assert(part.contains(event));
        assert(part.to_multiset().count(event) > 0);
        assert(events.contains(event));
        let p = events.index_of(event);
        let rest = events.remove(p);
        assert(part =~= fewer.push(event));
        assert(fewer.to_multiset().subset_of(rest.to_multiset()));
        assert forall|i: int| 0 <= i < rest.len() implies {
            let charge = charging(#[trigger] rest[i]);
            &&& 0 <= charge.amount
            &&& charge.key matches Some(key) ==> charge.amount == amounts(key)
        } by {
            assert(rest[i] == events[if i < p {
                i
            } else {
                i + 1
            }]);
        }
        lemma_part_counts_no_more(rest, fewer, charging, amounts, seen);
        match charge.key {
            Some(key) if !seen.contains(key) => {
                let marked = seen.insert(key);
                lemma_part_counts_no_more(rest, fewer, charging, amounts, marked);
                assert(has_key(events, charging, key));
                lemma_counted_before(events, charging, amounts, seen, key);
                lemma_counted_before(rest, charging, amounts, seen, key);
                lemma_counted_without(events, charging, marked, p);
                if !has_key(fewer, charging, key) {
                    assert forall|i: int| 0 <= i < fewer.len() implies {
                        let charge = charging(#[trigger] fewer[i]);
                        &&& 0 <= charge.amount
                        &&& charge.key matches Some(key) ==> charge.amount == amounts(key)
                    } by {
                        assert(part.contains(part[i]));
                        assert(part.to_multiset().count(part[i]) > 0);
                        assert(events.contains(part[i]));
                    }
                    lemma_counted_before(fewer, charging, amounts, seen, key);
                }
            },
            _ => {
                lemma_counted_without(events, charging, seen, p);
            },
        }
    }
}

/// What a report adds to the bytes.
spec fn byte_charge(root_dev: Option<u64>, event: EventView) -> Charge {
    match event {
        EventView::Entry { kind: EntryKind::File, meta: Some(meta), .. } => if off_device(
            root_dev,
            meta.dev,
        ) {
            Charge { key: None, amount: 0 }
        } else if meta.nlink > 1 {
            Charge { key: Some(meta.key()), amount: meta.bytes() as int }
        } else {
            Charge { key: None, amount: meta.bytes() as int }
        },
        _ => Charge { key: None, amount: 0 },
    }
}

/// What a report adds to the directories on other devices.
spec fn cross_dev_charge(root_dev: Option<u64>, event: EventView) -> Charge {
    match event {
        EventView::Entry { kind: EntryKind::Dir, meta: Some(meta), .. } => if is_dir(event, meta) {
            Charge { key: Some(meta.key()), amount: cross_dev_amount(root_dev, meta.key()) }
        } else {
            Charge { key: None, amount: 0 }
        },
        _ => Charge { key: None, amount: 0 },
    }
}

spec fn cross_dev_amount(root_dev: Option<u64>, key: (u64, u64)) -> int {
    if off_device(root_dev, key.0) {
        1
    } else {
        0
    }
}

/// What a report adds to what could not be read.
spec fn unreadable_charge(event: EventView) -> Charge {
    Charge { key: None, amount: added_unreadable(seq![event], 0) }
}

proof fn lemma_bytes_counted(root_dev: Option<u64>, events: Seq<EventView>, n: int)
    requires
        0 <= n <= events.len(),
    ensures
        sum_of(|i: int| added_bytes(root_dev, events, i), n) == counted(
            events.take(n),
            |e: EventView| byte_charge(root_dev, e),
            Set::empty(),
        ),
    decreases n,
{
    if n > 0 {
        let i = n - 1;
        let rest = events.take(i);
        let charging = |e: EventView| byte_charge(root_dev, e);
        lemma_bytes_counted(root_dev, events, i);
        assert(events.take(n).drop_last() =~= rest);
        if let EventView::Entry { kind: EntryKind::File, meta: Some(meta), .. } = events[i] {
            if linked_before(root_dev, events, i, meta) {
                let (j, other) = choose|j: int, other: FileMeta|
                    0 <= j < i && #[trigger] is_linked_file(root_dev, events[j], other)
                        && other.key() == meta.key();
                assert(charging(rest[j]).key == Some(meta.key()));
            }
            if has_key(rest, charging, meta.key()) {
                let j = choose|j: int|
                    0 <= j < rest.len() && charging(#[trigger] rest[j]).key == Some(meta.key());
                assert(is_linked_file(root_dev, events[j], events[j]->meta->0));
            }
        }
    }
}

proof fn lemma_cross_dev_counted(root_dev: Option<u64>, events: Seq<EventView>, n: int)
    requires
        0 <= n <= events.len(),
    ensures
        sum_of(|i: int| added_cross_dev(root_dev, events, i), n) == counted(
            events.take(n),
            |e: EventView| cross_dev_charge(root_dev, e),
            Set::empty(),
        ),
        sum_of(|i: int| added_cross_dev(root_dev, events, i), n) <= n,
    decreases n,
{
    if n > 0 {
        let i = n - 1;
        let rest = events.take(i);
        let charging = |e: EventView| cross_dev_charge(root_dev, e);
        lemma_cross_dev_counted(root_dev, events, i);
        assert(events.take(n).drop_last() =~= rest);
        if let EventView::Entry { kind: EntryKind::Dir, meta: Some(meta), .. } = events[i] {
            if reached_before(events, i, meta) {
                let (j, other) = choose|j: int, other: FileMeta|
                    0 <= j < i && #[trigger] is_dir(events[j], other) && other.key() == meta.key();
                assert(charging(rest[j]).key == Some(meta.key()));
            }
            if has_key(rest, charging, meta.key()) {
                let j = choose|j: int|
                    0 <= j < rest.len() && charging(#[trigger] rest[j]).key == Some(meta.key());
                assert(is_dir(events[j], events[j]->meta->0));
            }
        }
    }
}

proof fn lemma_unreadable_counted(events: Seq<EventView>, n: int)
    requires
        0 <= n <= events.len(),
    ensures
        sum_of(|i: int| added_unreadable(events, i), n) == counted(
            events.take(n),
            |e: EventView| unreadable_charge(e),
            Set::empty(),
        ),
        sum_of(|i: int| added_unreadable(events, i), n) <= n,
    decreases n,
{
    if n > 0 {
        lemma_unreadable_counted(events, n - 1);
        assert(events.take(n).drop_last() =~= events.take(n - 1));
    }
}

/// Whether the counters of a scan of these reports do not wrap around.
pub open spec fn counters_fit(root_dev: Option<u64>, events: Seq<EventView>) -> bool {
    &&& events.len() <= u64::MAX
    &&& sum_of(|i: int| added_bytes(root_dev, events, i), events.len() as int) <= u64::MAX
}

/// Whether none of the totals `left` is larger than its counterpart in `right`.
pub open spec fn no_larger(left: ScanTotals, right: ScanTotals) -> bool {
    &&& left.kb <= right.kb
    &&& left.skipped_perm <= right.skipped_perm
    &&& left.skipped_cross_dev <= right.skipped_cross_dev
}

/// A directory reports no less than a directory under it: where a walk from the one
/// reports, in whatever order, all that a walk from the other reports, none of its totals
/// is smaller. This holds as long as reports of the same file agree on its size, and no
/// counter wraps around.
pub proof fn law_part_counts_no_more_than_the_whole(
    root_dev: Option<u64>,
    events: Seq<EventView>,
    part: Seq<EventView>,
)
    requires
        part.to_multiset().subset_of(events.to_multiset()),
        sizes_agree(root_dev, events),
        counters_fit(root_dev, events),
    ensures
        no_larger(
            dir_totals(dir_run(dir_start(root_dev), part)),
            dir_totals(dir_run(dir_start(root_dev), events)),
        ),
{
    law_totals_count_the_reports(root_dev, events);
    law_totals_count_the_reports(root_dev, part);
    lemma_bytes_counted(root_dev, events, events.len() as int);
    lemma_bytes_counted(root_dev, part, part.len() as int);
    lemma_cross_dev_counted(root_dev, events, events.len() as int);
    lemma_cross_dev_counted(root_dev, part, part.len() as int);
    lemma_unreadable_counted(events, events.len() as int);
    lemma_unreadable_counted(part, part.len() as int);
    assert(events.take(events.len() as int) =~= events);
    assert(part.take(part.len() as int) =~= part);
    let bytes = |e: EventView| byte_charge(root_dev, e);
    let sizes = |key: (u64, u64)| reported_size(root_dev, events, key) as int;
    assert(amounts_are(events, bytes, sizes)) by {
        assert forall|i: int| 0 <= i < events.len() implies {
            let charge = bytes(#[trigger] events[i]);
            &&& 0 <= charge.amount
            &&& charge.key matches Some(key) ==> charge.amount == sizes(key)
        } by {
            if bytes(events[i]).key is Some {
                lemma_reported_size(root_dev, events, i, events[i]->meta->0);
            }
        }
    }
    lemma_part_counts_no_more(events, part, bytes, sizes, Set::empty());
    lemma_part_counts_no_more(
        events,
        part,
        |e: EventView| cross_dev_charge(root_dev, e),
        |key: (u64, u64)| cross_dev_amount(root_dev, key),
        Set::empty(),
    );
    lemma_part_counts_no_more(
        events,
        part,
        |e: EventView| unreadable_charge(e),
        |key: (u64, u64)| 0,
        Set::empty(),
    );
}

} // verus!
