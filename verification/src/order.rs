//! Stable orders of indexes by key.

use vstd::prelude::*;

verus! {

/// Whether index `a` comes before index `b`: its key is smaller, or the keys are
/// equal and `a` is the smaller index.
pub open spec fn precedes(keys: Seq<int>, a: int, b: int) -> bool {
    keys[a] < keys[b] || (keys[a] == keys[b] && a < b)
}

/// Whether `order` lists every index of `keys` once, each before those it precedes.
pub open spec fn is_stable_order(keys: Seq<int>, order: Seq<usize>) -> bool {
    &&& forall|i: int| 0 <= i < order.len() ==> #[trigger] order[i] < keys.len()
    &&& forall|k: usize| k < keys.len() ==> #[trigger] order.contains(k)
    &&& is_ordered(keys, order)
}

/// The order of the indexes by ascending key, in which equal keys keep their order.
pub open spec fn stable_order(keys: Seq<int>) -> Seq<usize> {
    choose|order: Seq<usize>| is_stable_order(keys, order)
}

/// The keys as integers.
pub open spec fn ascending(keys: Seq<u64>) -> Seq<int> {
    keys.map_values(|key: u64| key as int)
}

/// The keys negated, so that the largest comes first.
pub open spec fn descending(keys: Seq<u64>) -> Seq<int> {
    keys.map_values(|key: u64| -(key as int))
}

/// There is only one stable order by given keys.
pub proof fn law_stable_order_is_unique(keys: Seq<int>, left: Seq<usize>, right: Seq<usize>)
    requires
        is_stable_order(keys, left),
        is_stable_order(keys, right),
    ensures
        left == right,
{
    assert forall|k: usize| #[trigger] left.contains(k) <==> right.contains(k) by {
        if left.contains(k) {
            assert(left[left.index_of(k)] == k);
        }
        if right.contains(k) {
            assert(right[right.index_of(k)] == k);
        }
    }
    lemma_same_items(keys, left, right);
}

/// Whether each item of `list` precedes those that come after it.
pub open spec fn is_ordered(keys: Seq<int>, list: Seq<usize>) -> bool {
    forall|i: int, j: int|
        0 <= i < j < list.len() ==> precedes(
            keys,
            #[trigger] list[i] as int,
            #[trigger] list[j] as int,
        )
}

/// Two ordered lists of the same items are equal.
pub(crate) proof fn lemma_same_items(keys: Seq<int>, left: Seq<usize>, right: Seq<usize>)
    requires
        is_ordered(keys, left),
        is_ordered(keys, right),
        forall|k: usize| #[trigger] left.contains(k) <==> right.contains(k),
    ensures
        left == right,
{
    lemma_agree(keys, left, right, left.len() as int);
    lemma_agree(keys, right, left, right.len() as int);
    assert(left =~= right);
}

/// Two ordered lists of the same items agree on their first `n` places.
proof fn lemma_agree(keys: Seq<int>, left: Seq<usize>, right: Seq<usize>, n: int)
    requires
        is_ordered(keys, left),
        is_ordered(keys, right),
        forall|k: usize| #[trigger] left.contains(k) <==> right.contains(k),
        0 <= n <= left.len(),
    ensures
        n <= right.len(),
        forall|i: int| 0 <= i < n ==> left[i] == right[i],
    decreases n,
{
    if n > 0 {
        let i = n - 1;
        lemma_agree(keys, left, right, i);
        assert(left.contains(left[i]));
        let p = right.index_of(left[i]);
        if p < i {
            assert(left[p] == left[i]);
            assert(precedes(keys, left[p] as int, left[i] as int));
        }
        if left[i] != right[i] {
            assert(precedes(keys, right[i] as int, right[p] as int));
            assert(right.contains(right[i]));
            assert(left.contains(right[i]));
            let q = left.index_of(right[i]);
            if q < i {
                assert(right[q] == right[i]);
                assert(precedes(keys, right[q] as int, right[i] as int));
            }
            assert(precedes(keys, left[i] as int, left[q] as int));
        }
    }
}

/// Whether `list` holds each index below `k` and no other, in order.
spec fn orders_first(keys: Seq<int>, list: Seq<usize>, k: int) -> bool {
    &&& forall|i: int| 0 <= i < list.len() ==> #[trigger] list[i] < k
    &&& forall|m: usize| m < k ==> #[trigger] list.contains(m)
    &&& is_ordered(keys, list)
}

/// Putting the next index behind all that do not have a larger key keeps the order.
proof fn lemma_insert(keys: Seq<int>, list: Seq<usize>, k: usize, at: int)
    requires
        k < keys.len(),
        orders_first(keys, list, k as int),
        0 <= at <= list.len(),
        forall|i: int| at <= i < list.len() ==> keys[#[trigger] list[i] as int] > keys[k as int],
        at > 0 ==> keys[list[at - 1] as int] <= keys[k as int],
    ensures
        orders_first(keys, list.insert(at, k), k + 1),
{
    let after = list.insert(at, k);
    assert forall|i: int, j: int| 0 <= i < j < after.len() implies precedes(
        keys,
        #[trigger] after[i] as int,
        #[trigger] after[j] as int,
    ) by {
        if i < at - 1 && j == at {
            assert(precedes(keys, list[i] as int, list[at - 1] as int));
        } else if j < at {
            assert(precedes(keys, list[i] as int, list[j] as int));
        } else if i < at && j > at {
            assert(precedes(keys, list[i] as int, list[j - 1] as int));
        } else if i > at {
            assert(precedes(keys, list[i - 1] as int, list[j - 1] as int));
        }
    }
    assert forall|m: usize| m < k + 1 implies #[trigger] after.contains(m) by {
        if m == k {
            assert(after[at] == k);
        } else {
            assert(list.contains(m));
            let i = list.index_of(m);
            if i < at {
                assert(after[i] == m);
            } else {
                assert(after[i + 1] == m);
            }
        }
    }
}

/// The place of the next index: behind all that do not have a larger key.
proof fn lemma_place(keys: Seq<int>, list: Seq<usize>, k: usize, from: int) -> (at: int)
    requires
        0 <= from <= list.len(),
        forall|i: int| from <= i < list.len() ==> keys[#[trigger] list[i] as int] > keys[k as int],
    ensures
        0 <= at <= list.len(),
        forall|i: int| at <= i < list.len() ==> keys[#[trigger] list[i] as int] > keys[k as int],
        at > 0 ==> keys[list[at - 1] as int] <= keys[k as int],
    decreases from,
{
    if from > 0 && keys[list[from - 1] as int] > keys[k as int] {
        lemma_place(keys, list, k, from - 1)
    } else {
        from
    }
}

proof fn lemma_order_first(keys: Seq<int>, k: int) -> (list: Seq<usize>)
    requires
        0 <= k <= keys.len() <= usize::MAX,
    ensures
        orders_first(keys, list, k),
    decreases k,
{
    if k == 0 {
        Seq::empty()
    } else {
        let list = lemma_order_first(keys, k - 1);
        let next = (k - 1) as usize;
        let at = lemma_place(keys, list, next, list.len() as int);
        lemma_insert(keys, list, next, at);
        list.insert(at, next)
    }
}

/// Keys that machine indexes can number have a stable order.
pub proof fn law_stable_order_exists(keys: Seq<int>)
    requires
        keys.len() <= usize::MAX,
    ensures
        is_stable_order(keys, stable_order(keys)),
{
    let list = lemma_order_first(keys, keys.len() as int);
    assert(is_stable_order(keys, list));
}

/// Sorts the indexes of `keys` by ascending key; equal keys keep their order.
pub fn order_by_key(keys: &Vec<u64>) -> (order: Vec<usize>)
    ensures
        is_stable_order(ascending(keys@), order@),
        order@ == stable_order(ascending(keys@)),
{
    let ghost by = ascending(keys@);
    let mut order: Vec<usize> = Vec::new();
    let mut k: usize = 0;
    while k < keys.len()
        invariant
            k <= keys@.len(),
            by == ascending(keys@),
            orders_first(by, order@, k as int),
        decreases keys.len() - k,
    {
        let mut at: usize = order.len();
        while at > 0 && keys[order[at - 1]] > keys[k]
            invariant
                at <= order@.len(),
                k < keys@.len(),
                by == ascending(keys@),
                forall|i: int| 0 <= i < order@.len() ==> #[trigger] order@[i] < k,
                forall|i: int| at <= i < order@.len() ==> by[#[trigger] order@[i] as int] > by[k as int],
            decreases at,
        {
            at = at - 1;
        }
        proof {
            lemma_insert(by, order@, k, at as int);
        }
        order.insert(at, k);
        k = k + 1;
    }
    proof {
        assert(is_stable_order(by, order@));
        law_stable_order_is_unique(by, order@, stable_order(by));
    }
    order
}

/// Sorts the indexes of `keys` by descending key; equal keys keep their order.
pub fn order_by_key_descending(keys: &Vec<u64>) -> (order: Vec<usize>)
    ensures
        is_stable_order(descending(keys@), order@),
        order@ == stable_order(descending(keys@)),
{
    let mut turned: Vec<u64> = Vec::new();
    let mut k: usize = 0;
    while k < keys.len()
        invariant
            k <= keys@.len(),
            turned@.len() == k,
            forall|i: int| 0 <= i < k ==> turned@[i] == u64::MAX - keys@[i],
        decreases keys.len() - k,
    {
        turned.push(u64::MAX - keys[k]);
        k = k + 1;
    }
    let order = order_by_key(&turned);
    proof {
        let by = descending(keys@);
        assert forall|i: int, j: int| 0 <= i < j < order@.len() implies precedes(
            by,
            #[trigger] order@[i] as int,
            #[trigger] order@[j] as int,
        ) by {
            assert(precedes(ascending(turned@), order@[i] as int, order@[j] as int));
        }
        assert(is_stable_order(by, order@));
        law_stable_order_is_unique(by, order@, stable_order(by));
    }
    order
}

/// Sorting by ascending keys lists every index once, smaller keys first, and of equal keys
/// the smaller index first.
pub proof fn law_smaller_keys_come_first(keys: Seq<u64>, i: int, j: int)
    requires
        keys.len() <= usize::MAX,
        0 <= i < j < keys.len(),
    ensures
        ({
            let order = stable_order(ascending(keys));
            &&& order.len() == keys.len()
            &&& order.no_duplicates()
            &&& order[i] < keys.len()
            &&& order[j] < keys.len()
            &&& keys[order[i] as int] < keys[order[j] as int] || (keys[order[i] as int]
                == keys[order[j] as int] && order[i] < order[j])
        }),
{
    let by = ascending(keys);
    law_stable_order_exists(by);
    lemma_lists_each(by, stable_order(by));
    assert(precedes(by, stable_order(by)[i] as int, stable_order(by)[j] as int));
}

/// Sorting by descending keys lists every index once, larger keys first, and of equal keys
/// the smaller index first.
pub proof fn law_larger_keys_come_first(keys: Seq<u64>, i: int, j: int)
    requires
        keys.len() <= usize::MAX,
        0 <= i < j < keys.len(),
    ensures
        ({
            let order = stable_order(descending(keys));
            &&& order.len() == keys.len()
            &&& order.no_duplicates()
            &&& order[i] < keys.len()
            &&& order[j] < keys.len()
            &&& keys[order[i] as int] > keys[order[j] as int] || (keys[order[i] as int]
                == keys[order[j] as int] && order[i] < order[j])
        }),
{
    let by = descending(keys);
    law_stable_order_exists(by);
    lemma_lists_each(by, stable_order(by));
    assert(precedes(by, stable_order(by)[i] as int, stable_order(by)[j] as int));
}

/// A stable order is as long as its keys, and lists no index twice.
proof fn lemma_lists_each(keys: Seq<int>, order: Seq<usize>)
    requires
        is_stable_order(keys, order),
        keys.len() <= usize::MAX,
    ensures
        order.no_duplicates(),
        order.len() == keys.len(),
{
    assert forall|i: int, j: int|
        0 <= i < order.len() && 0 <= j < order.len() && i != j implies order[i] != order[j] by {
        if i < j {
            assert(precedes(keys, order[i] as int, order[j] as int));
        } else {
            assert(precedes(keys, order[j] as int, order[i] as int));
        }
    }
    let below = Set::new(|k: usize| k < keys.len());
    order.unique_seq_to_set();
    assert(order.to_set() =~= below);
    lemma_indexes_below(keys.len());
}

proof fn lemma_indexes_below(n: nat)
    requires
        n <= usize::MAX,
    ensures
        Set::new(|k: usize| k < n).finite(),
        Set::new(|k: usize| k < n).len() == n,
    decreases n,
{
    let below = Set::new(|k: usize| k < n);
    if n == 0 {
        assert(below =~= Set::empty());
    } else {
        lemma_indexes_below((n - 1) as nat);
        let fewer = Set::new(|k: usize| k < (n - 1) as nat);
        assert(below =~= fewer.insert((n - 1) as usize));
    }
}

} // verus!
