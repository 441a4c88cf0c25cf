//! Grouping of the paths to scan: paths that lie under one another on the same
//! device share one walk.

use crate::group_scan::path_views;
use crate::order::{
    ascending, is_ordered, is_stable_order, lemma_same_items, order_by_key, precedes,
};
use crate::path::{contains_path, is_parent_or_same, ComponentView, ScanPath};
use vstd::prelude::*;

verus! {

/// The number of components of each path.
pub open spec fn depths(paths: Seq<Seq<ComponentView>>) -> Seq<int> {
    paths.map_values(|p: Seq<ComponentView>| p.len() as int)
}

/// Whether a walk from path `r` reaches path `m` without leaving its device.
pub open spec fn covers(
    paths: Seq<Seq<ComponentView>>,
    devices: Seq<u64>,
    r: int,
    m: int,
) -> bool {
    devices[r] == devices[m] && contains_path(paths[r], paths[m])
}

/// Whether path `r` starts a walk of its own: nothing that comes before it, shorter
/// paths first, covers it.
pub open spec fn is_root(paths: Seq<Seq<ComponentView>>, devices: Seq<u64>, r: int) -> bool {
    forall|j: int|
        0 <= j < paths.len() && precedes(depths(paths), j, r) ==> !#[trigger] covers(
            paths,
            devices,
            j,
            r,
        )
}

/// The groups' members as sequences.
pub open spec fn group_views(groups: Seq<Vec<usize>>) -> Seq<Seq<usize>> {
    groups.map_values(|g: Vec<usize>| g@)
}

/// Whether shorter paths come first in `list`, and smaller indexes first among paths of
/// one length.
pub open spec fn shortest_first(paths: Seq<Seq<ComponentView>>, list: Seq<usize>) -> bool {
    is_ordered(depths(paths), list)
}

/// Whether `r` is the first of some group.
pub open spec fn heads_some_group(groups: Seq<Seq<usize>>, r: usize) -> bool {
    exists|g: int| 0 <= g < groups.len() && (#[trigger] groups[g])[0] == r
}

/// Whether `m` is in some group.
pub open spec fn in_some_group(groups: Seq<Seq<usize>>, m: usize) -> bool {
    exists|g: int| 0 <= g < groups.len() && #[trigger] groups[g].contains(m)
}

/// Whether `groups` is the grouping of the paths: one group for each root, headed by
/// it and holding what it covers; groups and members with shorter paths first, and
/// with smaller indexes first among paths of one length.
pub open spec fn is_grouping(
    paths: Seq<Seq<ComponentView>>,
    devices: Seq<u64>,
    groups: Seq<Seq<usize>>,
) -> bool {
    &&& forall|g: int|
        0 <= g < groups.len() ==> {
            &&& (#[trigger] groups[g]).len() > 0
            &&& groups[g][0] < paths.len()
            &&& is_root(paths, devices, groups[g][0] as int)
        }
    &&& forall|r: usize|
        r < paths.len() && is_root(paths, devices, r as int) ==> #[trigger] heads_some_group(
            groups,
            r,
        )
    &&& forall|g: int, m: usize|
        0 <= g < groups.len() ==> (#[trigger] groups[g].contains(m) <==> m < paths.len() && covers(
            paths,
            devices,
            groups[g][0] as int,
            m as int,
        ))
    &&& forall|g: int| 0 <= g < groups.len() ==> shortest_first(paths, #[trigger] groups[g])
    &&& forall|g: int, h: int|
        0 <= g < h < groups.len() ==> precedes(
            depths(paths),
            (#[trigger] groups[g])[0] as int,
            (#[trigger] groups[h])[0] as int,
        )
}

/// Where two paths cover a third, the one that comes first covers the other.
proof fn lemma_covers_nest(
    paths: Seq<Seq<ComponentView>>,
    devices: Seq<u64>,
    a: int,
    b: int,
    m: int,
)
    requires
        0 <= a < paths.len(),
        0 <= b < paths.len(),
        0 <= m < paths.len(),
        covers(paths, devices, a, m),
        covers(paths, devices, b, m),
        paths[a].len() <= paths[b].len(),
    ensures
        covers(paths, devices, a, b),
{
    let n = paths[a].len() as int;
    assert forall|i: int| 0 <= i < n implies paths[a][i] == paths[b][i] by {
        assert(paths[m].subrange(0, n)[i] == paths[m][i]);
        assert(paths[m].subrange(0, paths[b].len() as int)[i] == paths[m][i]);
    }
    assert(paths[a] =~= paths[b].subrange(0, n));
}

/// What covers a path covers all that the path covers.
proof fn lemma_covers_chain(
    paths: Seq<Seq<ComponentView>>,
    devices: Seq<u64>,
    a: int,
    b: int,
    m: int,
)
    requires
        covers(paths, devices, a, b),
        covers(paths, devices, b, m),
    ensures
        covers(paths, devices, a, m),
{
    let n = paths[a].len() as int;
    assert forall|i: int| 0 <= i < n implies paths[a][i] == paths[m][i] by {
        assert(paths[b].subrange(0, n)[i] == paths[b][i]);
        assert(paths[m].subrange(0, paths[b].len() as int)[i] == paths[m][i]);
    }
    assert(paths[a] =~= paths[m].subrange(0, n));
}

/// A path that covers one that comes before it is equal to it, and covered by it.
proof fn lemma_covers_back(paths: Seq<Seq<ComponentView>>, devices: Seq<u64>, a: int, b: int)
    requires
        0 <= a < paths.len(),
        0 <= b < paths.len(),
        precedes(depths(paths), a, b),
        covers(paths, devices, b, a),
    ensures
        covers(paths, devices, a, b),
{
    assert(paths[b].len() == paths[a].len());
    assert(paths[b] =~= paths[a]);
    assert(paths[a] =~= paths[b].subrange(0, paths[a].len() as int));
}

/// The grouping of those paths that `done` lists.
spec fn is_partial_grouping(
    paths: Seq<Seq<ComponentView>>,
    devices: Seq<u64>,
    done: Seq<usize>,
    groups: Seq<Seq<usize>>,
) -> bool {
    &&& forall|g: int|
        0 <= g < groups.len() ==> {
            &&& (#[trigger] groups[g]).len() > 0
            &&& done.contains(groups[g][0])
            &&& is_root(paths, devices, groups[g][0] as int)
        }
    &&& forall|m: usize| done.contains(m) ==> #[trigger] in_some_group(groups, m)
    &&& forall|r: usize|
        done.contains(r) && is_root(paths, devices, r as int) ==> #[trigger] heads_some_group(
            groups,
            r,
        )
    &&& forall|g: int, m: usize|
        0 <= g < groups.len() ==> (#[trigger] groups[g].contains(m) <==> done.contains(m) && covers(
            paths,
            devices,
            groups[g][0] as int,
            m as int,
        ))
    &&& forall|g: int| 0 <= g < groups.len() ==> shortest_first(paths, #[trigger] groups[g])
    &&& forall|g: int, h: int|
        0 <= g < h < groups.len() ==> precedes(
            depths(paths),
            (#[trigger] groups[g])[0] as int,
            (#[trigger] groups[h])[0] as int,
        )
}

/// The next path joins the group whose root covers it.
proof fn lemma_join(
    paths: Seq<Seq<ComponentView>>,
    devices: Seq<u64>,
    done: Seq<usize>,
    groups: Seq<Seq<usize>>,
    next: usize,
    at: int,
)
    requires
        forall|m: usize| #[trigger] done.contains(m) ==> m < paths.len(),
        next < paths.len(),
        forall|m: usize| #[trigger]
            done.contains(m) ==> precedes(depths(paths), m as int, next as int),
        is_partial_grouping(paths, devices, done, groups),
        0 <= at < groups.len(),
        covers(paths, devices, groups[at][0] as int, next as int),
    ensures
        is_partial_grouping(
            paths,
            devices,
            done.push(next),
            groups.update(at, groups[at].push(next)),
        ),
{
    let by = depths(paths);
    let now = done.push(next);
    let after = groups.update(at, groups[at].push(next));
    assert forall|m: usize| #[trigger] now.contains(m) <==> done.contains(m) || m == next by {
        lemma_push_contains(done, next, m);
    }
    assert forall|g: int| 0 <= g < after.len() implies (#[trigger] after[g])[0] == groups[g][0]
        && after[g].len() > 0 by {
        assert(groups[g].len() > 0);
    }
    assert forall|g: int, m: usize| 0 <= g < after.len() implies (#[trigger] after[g].contains(m)
        <==> now.contains(m) && covers(paths, devices, after[g][0] as int, m as int)) by {
        let root = groups[g][0];
        assert(groups[g].contains(m) <==> done.contains(m) && covers(
            paths,
            devices,
            root as int,
            m as int,
        ));
        if g == at {
            lemma_push_contains(groups[at], next, m);
        } else if m == next {
            assert(!done.contains(next));
            if covers(paths, devices, root as int, next as int) {
                let other = groups[at][0];
                if g < at {
                    assert(precedes(by, root as int, other as int));
                    lemma_covers_nest(paths, devices, root as int, other as int, next as int);
                } else {
                    assert(precedes(by, other as int, root as int));
                    lemma_covers_nest(paths, devices, other as int, root as int, next as int);
                }
            }
        }
    }
    assert forall|m: usize| now.contains(m) implies #[trigger] in_some_group(after, m) by {
        if m == next {
            assert(after[at].contains(m));
        } else {
            assert(in_some_group(groups, m));
            let g = choose|g: int| 0 <= g < groups.len() && #[trigger] groups[g].contains(m);
            assert(after[g].contains(m));
        }
    }
    assert forall|r: usize|
        now.contains(r) && is_root(paths, devices, r as int) implies #[trigger] heads_some_group(
        after,
        r,
    ) by {
        if r == next {
            let root = groups[at][0];
            assert(done.contains(root));
            assert(precedes(by, root as int, next as int));
        } else {
            assert(heads_some_group(groups, r));
            let g = choose|g: int| 0 <= g < groups.len() && (#[trigger] groups[g])[0] == r;
            assert(after[g][0] == r);
        }
    }
    assert forall|g: int| 0 <= g < after.len() implies shortest_first(
        paths,
        #[trigger] after[g],
    ) by {
        assert(shortest_first(paths, groups[g]));
        if g == at {
            assert forall|i: int| 0 <= i < groups[at].len() implies precedes(
                by,
                #[trigger] groups[at][i] as int,
                next as int,
            ) by {
                assert(groups[at].contains(groups[at][i]));
            }
        }
    }
}

/// The next path heads a new group where no root covers it.
proof fn lemma_found(
    paths: Seq<Seq<ComponentView>>,
    devices: Seq<u64>,
    done: Seq<usize>,
    groups: Seq<Seq<usize>>,
    next: usize,
)
    requires
        forall|m: usize| #[trigger] done.contains(m) ==> m < paths.len(),
        next < paths.len(),
        forall|m: usize|
            m < paths.len() ==> (#[trigger] done.contains(m) <==> precedes(
                depths(paths),
                m as int,
                next as int,
            )),
        is_partial_grouping(paths, devices, done, groups),
        forall|g: int|
            0 <= g < groups.len() ==> !covers(
                paths,
                devices,
                (#[trigger] groups[g])[0] as int,
                next as int,
            ),
        paths.len() <= usize::MAX,
    ensures
        is_partial_grouping(paths, devices, done.push(next), groups.push(seq![next])),
{
    let by = depths(paths);
    let now = done.push(next);
    let after = groups.push(seq![next]);
    let n = groups.len() as int;
    assert(after[n] == seq![next]);
    assert forall|m: usize| #[trigger] now.contains(m) <==> done.contains(m) || m == next by {
        lemma_push_contains(done, next, m);
    }
    assert forall|m: usize| #[trigger] seq![next].contains(m) <==> m == next by {
        assert(seq![next][0] == next);
    }
    assert(is_root(paths, devices, next as int)) by {
        assert forall|j: int| 0 <= j < paths.len() && precedes(by, j, next as int) implies !(
        #[trigger] covers(paths, devices, j, next as int)) by {
            if covers(paths, devices, j, next as int) {
                let m = j as usize;
                assert(done.contains(m));
                assert(in_some_group(groups, m));
                let g = choose|g: int| 0 <= g < groups.len() && #[trigger] groups[g].contains(m);
                lemma_covers_chain(paths, devices, groups[g][0] as int, j, next as int);
            }
        }
    }
    assert forall|g: int, m: usize| 0 <= g < after.len() implies (#[trigger] after[g].contains(m)
        <==> now.contains(m) && covers(paths, devices, after[g][0] as int, m as int)) by {
        if g == n {
            if m == next {
                assert(paths[m as int] =~= paths[m as int].subrange(
                    0,
                    paths[m as int].len() as int,
                ));
            } else if done.contains(m) && covers(paths, devices, next as int, m as int) {
                lemma_covers_back(paths, devices, m as int, next as int);
            }
        } else {
            assert(after[g] == groups[g]);
            assert(groups[g].contains(m) <==> done.contains(m) && covers(
                paths,
                devices,
                groups[g][0] as int,
                m as int,
            ));
        }
    }
    assert forall|m: usize| now.contains(m) implies #[trigger] in_some_group(after, m) by {
        if m == next {
            assert(after[n].contains(m));
        } else {
            assert(in_some_group(groups, m));
            let g = choose|g: int| 0 <= g < groups.len() && #[trigger] groups[g].contains(m);
            assert(after[g].contains(m));
        }
    }
    assert forall|r: usize|
        now.contains(r) && is_root(paths, devices, r as int) implies #[trigger] heads_some_group(
        after,
        r,
    ) by {
        if r == next {
            assert(after[n][0] == r);
        } else {
            assert(heads_some_group(groups, r));
            let g = choose|g: int| 0 <= g < groups.len() && (#[trigger] groups[g])[0] == r;
            assert(after[g][0] == r);
        }
    }
    assert forall|g: int| 0 <= g < after.len() implies shortest_first(
        paths,
        #[trigger] after[g],
    ) by {
        if g < n {
            assert(shortest_first(paths, groups[g]));
        }
    }
    assert forall|g: int, h: int| 0 <= g < h < after.len() implies precedes(
        by,
        (#[trigger] after[g])[0] as int,
        (#[trigger] after[h])[0] as int,
    ) by {
        assert(after[g] == groups[g]);
        if h == n {
            assert(done.contains(groups[g][0]));
        } else {
            assert(after[h] == groups[h]);
        }
    }
}

proof fn lemma_push_contains(list: Seq<usize>, item: usize, m: usize)
    ensures
        list.push(item).contains(m) <==> list.contains(m) || m == item,
{
    if list.contains(m) {
        assert(list.push(item)[list.index_of(m)] == m);
    }
    assert(list.push(item)[list.len() as int] == item);
    if list.push(item).contains(m) && m != item {
        let i = list.push(item).index_of(m);
        assert(list[i] == m);
    }
}

/// The first group whose root covers path `next`.
fn find_group(
    groups: &Vec<Vec<usize>>,
    paths: &Vec<ScanPath>,
    devices: &Vec<u64>,
    next: usize,
) -> (found: Option<usize>)
    requires
        devices@.len() == paths@.len(),
        next < paths@.len(),
        forall|g: int|
            0 <= g < groups@.len() ==> (#[trigger] groups@[g])@.len() > 0 && groups@[g]@[0]
                < paths@.len(),
    ensures
        match found {
            Some(g) => g < groups@.len() && covers(
                path_views(paths@),
                devices@,
                group_views(groups@)[g as int][0] as int,
                next as int,
            ),
            None => forall|g: int|
                0 <= g < groups@.len() ==> !covers(
                    path_views(paths@),
                    devices@,
                    (#[trigger] group_views(groups@)[g])[0] as int,
                    next as int,
                ),
        },
{
    let mut g: usize = 0;
    while g < groups.len()
        invariant
            g <= groups@.len(),
            devices@.len() == paths@.len(),
            next < paths@.len(),
            forall|g: int|
                0 <= g < groups@.len() ==> (#[trigger] groups@[g])@.len() > 0 && groups@[g]@[0]
                    < paths@.len(),
            forall|h: int|
                0 <= h < g ==> !covers(
                    path_views(paths@),
                    devices@,
                    (#[trigger] group_views(groups@)[h])[0] as int,
                    next as int,
                ),
        decreases groups.len() - g,
    {
        let root = groups[g][0];
        if devices[root] == devices[next] && is_parent_or_same(&paths[root], &paths[next]) {
            return Some(g);
        }
        g = g + 1;
    }
    None
}

/// Groups the paths by the walks that reach them. Each group lists indexes of
/// `paths`, its root first.
pub fn group_paths(paths: &Vec<ScanPath>, devices: &Vec<u64>) -> (groups: Vec<Vec<usize>>)
    requires
        devices@.len() == paths@.len(),
    ensures
        is_grouping(path_views(paths@), devices@, group_views(groups@)),
{
    let ghost views = path_views(paths@);
    let ghost by = depths(views);
    let mut lengths: Vec<u64> = Vec::new();
    let count: usize = paths.len();
    let mut k: usize = 0;
    while k < count
        invariant
            k <= count == paths@.len(),
            lengths@.len() == k,
            forall|i: int| 0 <= i < k ==> lengths@[i] == (#[trigger] path_views(paths@)[i]).len(),
        decreases count - k,
    {
        lengths.push(paths[k].components.len() as u64);
        k = k + 1;
    }
    let order = order_by_key(&lengths);
    assert(ascending(lengths@) =~= by);
    let mut groups: Vec<Vec<usize>> = Vec::new();
    let mut at: usize = 0;
    proof {
        assert(order@.take(0).len() == 0);
    }
    while at < order.len()
        invariant
            at <= order@.len(),
            count == paths@.len(),
            views == path_views(paths@),
            by == depths(views),
            devices@.len() == paths@.len(),
            is_stable_order(by, order@),
            is_partial_grouping(views, devices@, order@.take(at as int), group_views(groups@)),
        decreases order.len() - at,
    {
        let next = order[at];
        let ghost done = order@.take(at as int);
        let ghost before = group_views(groups@);
        proof {
            assert(order@.take(at + 1) =~= done.push(next));
            assert forall|m: usize| #[trigger] done.contains(m) implies m < views.len() by {
                assert(order@[done.index_of(m)] == m);
            }
            assert forall|m: usize| m < views.len() implies (#[trigger] done.contains(m)
                <==> precedes(by, m as int, next as int)) by {
                assert(order@.contains(m));
                let i = order@.index_of(m);
                if i < at {
                    assert(done[i] == m);
                    assert(precedes(by, order@[i] as int, order@[at as int] as int));
                } else if i > at {
                    assert(precedes(by, order@[at as int] as int, order@[i] as int));
                }
                if done.contains(m) {
                    let j = done.index_of(m);
                    assert(precedes(by, order@[j] as int, order@[at as int] as int));
                }
            }
        }
        proof {
            assert forall|g: int| 0 <= g < groups@.len() implies (#[trigger] groups@[g])@.len() > 0
                && groups@[g]@[0] < views.len() by {
                assert(before[g] == groups@[g]@);
                assert(done.contains(before[g][0]));
            }
        }
        match find_group(&groups, paths, devices, next) {
            Some(g) => {
                groups[g].push(next);
                proof {
                    lemma_join(views, devices@, done, before, next, g as int);
                    assert(group_views(groups@) =~= before.update(
                        g as int,
                        before[g as int].push(next),
                    ));
                }
            },
            None => {
                let mut fresh: Vec<usize> = Vec::new();
                fresh.push(next);
                groups.push(fresh);
                proof {
                    lemma_found(views, devices@, done, before, next);
                    assert(fresh@ =~= seq![next]);
                    assert(group_views(groups@) =~= before.push(seq![next]));
                }
            },
        }
        at = at + 1;
    }
    proof {
        assert(order@.take(order@.len() as int) =~= order@);
        assert forall|m: usize| #[trigger] order@.contains(m) <==> m < views.len() by {
            if order@.contains(m) {
                assert(order@[order@.index_of(m)] == m);
            }
        }
        lemma_complete(views, devices@, order@, group_views(groups@));
    }
    groups
}

/// The grouping of a list that holds every path is the grouping of the paths.
proof fn lemma_complete(
    paths: Seq<Seq<ComponentView>>,
    devices: Seq<u64>,
    done: Seq<usize>,
    groups: Seq<Seq<usize>>,
)
    requires
        forall|m: usize| #[trigger] done.contains(m) <==> m < paths.len(),
        is_partial_grouping(paths, devices, done, groups),
    ensures
        is_grouping(paths, devices, groups),
{
    assert forall|r: usize|
        r < paths.len() && is_root(paths, devices, r as int) implies #[trigger] heads_some_group(
        groups,
        r,
    ) by {
        assert(done.contains(r));
    }
}

/// Each path is covered by a root.
proof fn lemma_has_root(paths: Seq<Seq<ComponentView>>, devices: Seq<u64>, m: int) -> (r: int)
    requires
        0 <= m < paths.len(),
    ensures
        0 <= r < paths.len(),
        is_root(paths, devices, r),
        covers(paths, devices, r, m),
    decreases paths[m].len(), m,
{
    if is_root(paths, devices, m) {
        assert(paths[m] =~= paths[m].subrange(0, paths[m].len() as int));
        m
    } else {
        let j = choose|j: int|
            0 <= j < paths.len() && precedes(depths(paths), j, m) && #[trigger] covers(
                paths,
                devices,
                j,
                m,
            );
        let r = lemma_has_root(paths, devices, j);
        lemma_covers_chain(paths, devices, r, j, m);
        r
    }
}

/// The groups' first members.
spec fn heads(groups: Seq<Seq<usize>>) -> Seq<usize> {
    groups.map_values(|g: Seq<usize>| g[0])
}

/// No walk reaches into another: what is in two groups is in the same group.
pub proof fn law_groups_are_disjoint(
    paths: Seq<Seq<ComponentView>>,
    devices: Seq<u64>,
    groups: Seq<Seq<usize>>,
    g: int,
    h: int,
    m: usize,
)
    requires
        is_grouping(paths, devices, groups),
        0 <= g < groups.len(),
        0 <= h < groups.len(),
        groups[g].contains(m),
        groups[h].contains(m),
    ensures
        g == h,
{
    let a = groups[g][0] as int;
    let b = groups[h][0] as int;
    if g < h {
        assert(precedes(depths(paths), a, b));
        lemma_covers_nest(paths, devices, a, b, m as int);
    } else if h < g {
        assert(precedes(depths(paths), b, a));
        lemma_covers_nest(paths, devices, b, a, m as int);
    }
}

/// Every path to scan is in a group, and no group lists a path twice.
pub proof fn law_groups_hold_every_path(
    paths: Seq<Seq<ComponentView>>,
    devices: Seq<u64>,
    groups: Seq<Seq<usize>>,
)
    requires
        is_grouping(paths, devices, groups),
        paths.len() <= usize::MAX,
    ensures
        forall|m: usize| m < paths.len() <==> #[trigger] in_some_group(groups, m),
        forall|g: int| 0 <= g < groups.len() ==> (#[trigger] groups[g]).no_duplicates(),
{
    assert forall|m: usize| m < paths.len() <==> #[trigger] in_some_group(groups, m) by {
        if m < paths.len() {
            let r = lemma_has_root(paths, devices, m as int) as usize;
            assert(heads_some_group(groups, r));
            let g = choose|g: int| 0 <= g < groups.len() && (#[trigger] groups[g])[0] == r;
            assert(groups[g].contains(m));
        }
    }
    assert forall|g: int| 0 <= g < groups.len() implies (#[trigger] groups[g]).no_duplicates() by {
        assert(shortest_first(paths, groups[g]));
        let list = groups[g];
        assert forall|i: int, j: int| 0 <= i < list.len() && 0 <= j < list.len() && i != j implies
            list[i] != list[j] by {
            if i < j {
                assert(precedes(depths(paths), list[i] as int, list[j] as int));
            } else {
                assert(precedes(depths(paths), list[j] as int, list[i] as int));
            }
        }
    }
}

/// No root lies under another root on the same device.
pub proof fn law_roots_do_not_nest(
    paths: Seq<Seq<ComponentView>>,
    devices: Seq<u64>,
    groups: Seq<Seq<usize>>,
    g: int,
    h: int,
)
    requires
        is_grouping(paths, devices, groups),
        0 <= g < groups.len(),
        0 <= h < groups.len(),
        g != h,
    ensures
        !covers(paths, devices, groups[g][0] as int, groups[h][0] as int),
{
    let b = groups[h][0];
    assert(groups[h][0] == b);
    assert(groups[h].contains(b));
    if covers(paths, devices, groups[g][0] as int, b as int) {
        assert(groups[g].contains(b));
        law_groups_are_disjoint(paths, devices, groups, g, h, b);
    }
}

/// There is only one grouping of given paths.
pub proof fn law_grouping_is_unique(
    paths: Seq<Seq<ComponentView>>,
    devices: Seq<u64>,
    left: Seq<Seq<usize>>,
    right: Seq<Seq<usize>>,
)
    requires
        is_grouping(paths, devices, left),
        is_grouping(paths, devices, right),
    ensures
        left == right,
{
    let by = depths(paths);
    lemma_heads(paths, devices, left);
    lemma_heads(paths, devices, right);
    assert forall|r: usize| #[trigger] heads(left).contains(r) <==> heads(right).contains(r) by {}
    lemma_same_items(by, heads(left), heads(right));
    assert(heads(left).len() == left.len());
    assert(heads(right).len() == right.len());
    assert forall|g: int| 0 <= g < left.len() implies left[g] == right[g] by {
        assert(heads(left)[g] == left[g][0]);
        assert(heads(right)[g] == right[g][0]);
        assert forall|m: usize| #[trigger] left[g].contains(m) <==> right[g].contains(m) by {}
        assert(shortest_first(paths, left[g]));
        assert(shortest_first(paths, right[g]));
        lemma_same_items(by, left[g], right[g]);
    }
    assert(left =~= right);
}

/// The first members of a grouping are the roots, in order.
proof fn lemma_heads(paths: Seq<Seq<ComponentView>>, devices: Seq<u64>, groups: Seq<Seq<usize>>)
    requires
        is_grouping(paths, devices, groups),
    ensures
        is_ordered(depths(paths), heads(groups)),
        forall|r: usize| #[trigger]
            heads(groups).contains(r) <==> r < paths.len() && is_root(paths, devices, r as int),
{
    let list = heads(groups);
    assert forall|i: int, j: int| 0 <= i < j < list.len() implies precedes(
        depths(paths),
        #[trigger] list[i] as int,
        #[trigger] list[j] as int,
    ) by {
        assert(groups[i][0] == list[i]);
        assert(groups[j][0] == list[j]);
    }
    assert forall|r: usize| #[trigger]
        heads(groups).contains(r) <==> r < paths.len() && is_root(paths, devices, r as int) by {
        if list.contains(r) {
            let g = list.index_of(r);
            assert(groups[g][0] == r);
        }
        if r < paths.len() && is_root(paths, devices, r as int) {
            assert(heads_some_group(groups, r));
            let g = choose|g: int| 0 <= g < groups.len() && (#[trigger] groups[g])[0] == r;
            assert(list[g] == r);
        }
    }
}

/// The members of a group are on one device and under its first member, which is the first
/// of them; shorter paths come first, and of equally long ones the smaller index.
pub proof fn law_group_lies_under_its_root(
    paths: Seq<Seq<ComponentView>>,
    devices: Seq<u64>,
    groups: Seq<Seq<usize>>,
    g: int,
    p: int,
)
    requires
        is_grouping(paths, devices, groups),
        0 <= g < groups.len(),
        0 <= p < groups[g].len(),
    ensures
        groups[g][p] < paths.len(),
        devices[groups[g][p] as int] == devices[groups[g][0] as int],
        contains_path(paths[groups[g][0] as int], paths[groups[g][p] as int]),
        forall|q: int|
            p < q < groups[g].len() ==> {
                let a = groups[g][p];
                let b = #[trigger] groups[g][q];
                ||| paths[a as int].len() < paths[b as int].len()
                ||| paths[a as int].len() == paths[b as int].len() && a < b
            },
{
    assert(groups[g].contains(groups[g][p]));
    assert(shortest_first(paths, groups[g]));
    assert forall|q: int| p < q < groups[g].len() implies {
        let a = groups[g][p];
        let b = #[trigger] groups[g][q];
        ||| paths[a as int].len() < paths[b as int].len()
        ||| paths[a as int].len() == paths[b as int].len() && a < b
    } by {
        assert(groups[g].contains(groups[g][q]));
        assert(precedes(depths(paths), groups[g][p] as int, groups[g][q] as int));
    }
}

/// Two paths on one device share a group wherever one is above the other.
pub proof fn law_nested_paths_share_a_group(
    paths: Seq<Seq<ComponentView>>,
    devices: Seq<u64>,
    groups: Seq<Seq<usize>>,
    outer: usize,
    inner: usize,
)
    requires
        is_grouping(paths, devices, groups),
        paths.len() <= usize::MAX,
        outer < paths.len(),
        inner < paths.len(),
        devices[outer as int] == devices[inner as int],
        contains_path(paths[outer as int], paths[inner as int]),
    ensures
        exists|g: int|
            0 <= g < groups.len() && #[trigger] groups[g].contains(outer) && groups[g].contains(
                inner,
            ),
{
    law_groups_hold_every_path(paths, devices, groups);
    assert(in_some_group(groups, outer));
    let g = choose|g: int| 0 <= g < groups.len() && #[trigger] groups[g].contains(outer);
    lemma_covers_chain(paths, devices, groups[g][0] as int, outer as int, inner as int);
    assert(groups[g].contains(inner));
}

/// The groups come in the order of their first members, shorter paths first and of equally
/// long ones the smaller index; and no first member lies under another on its device.
pub proof fn law_groups_come_shortest_first(
    paths: Seq<Seq<ComponentView>>,
    devices: Seq<u64>,
    groups: Seq<Seq<usize>>,
    g: int,
    h: int,
)
    requires
        is_grouping(paths, devices, groups),
        0 <= g < h < groups.len(),
    ensures
        ({
            let a = groups[g][0];
            let b = groups[h][0];
            &&& paths[a as int].len() < paths[b as int].len() || (paths[a as int].len()
                == paths[b as int].len() && a < b)
            &&& !(devices[a as int] == devices[b as int] && contains_path(
                paths[a as int],
                paths[b as int],
            ))
        }),
{
    assert(precedes(depths(paths), groups[g][0] as int, groups[h][0] as int));
    assert(groups[g][0] < paths.len() && groups[h][0] < paths.len());
    law_roots_do_not_nest(paths, devices, groups, g, h);
}

/// Groups are taken as they are, in their order.
pub proof fn law_groups_are_taken_as_given(groups: Seq<Vec<usize>>, g: int)
    requires
        0 <= g < groups.len(),
    ensures
        group_views(groups).len() == groups.len(),
        group_views(groups)[g] == groups[g]@,
{
}

} // verus!
