//! Paths as sequences of components.

use vstd::prelude::*;
use vstd::utf8::{encode_utf8, is_ascii_chars, is_ascii_chars_encode_utf8};

verus! {

/// One component of a path, with the bytes of its name where it has one.
#[derive(Debug, Clone)]
pub enum Component {
    /// The leading `/`.
    RootDir,
    /// A leading `.`.
    CurDir,
    /// `..`.
    ParentDir,
    /// A file or directory name.
    Normal(Vec<u8>),
}

/// What a component is, with its name as a sequence of bytes.
pub enum ComponentView {
    RootDir,
    CurDir,
    ParentDir,
    Normal(Seq<u8>),
}

impl View for Component {
    type V = ComponentView;

    open spec fn view(&self) -> ComponentView {
        match self {
            Component::RootDir => ComponentView::RootDir,
            Component::CurDir => ComponentView::CurDir,
            Component::ParentDir => ComponentView::ParentDir,
            Component::Normal(name) => ComponentView::Normal(name@),
        }
    }
}

/// A path, split into its components.
#[derive(Debug, Clone)]
pub struct ScanPath {
    pub components: Vec<Component>,
}

impl View for ScanPath {
    type V = Seq<ComponentView>;

    open spec fn view(&self) -> Seq<ComponentView> {
        self.components@.map_values(|c: Component| c@)
    }
}

/// The byte between two components.
pub const SEPARATOR: u8 = 0x2f;

/// The byte that `.` and `..` are made of.
pub const DOT: u8 = 0x2e;

/// The parts of a path between its separators, empty ones too.
pub open spec fn segments(bytes: Seq<u8>) -> Seq<Seq<u8>>
    decreases bytes.len(),
{
    if bytes.len() == 0 {
        seq![Seq::empty()]
    } else {
        let before = segments(bytes.drop_last());
        if bytes.last() == SEPARATOR {
            before.push(Seq::empty())
        } else {
            before.drop_last().push(before.last().push(bytes.last()))
        }
    }
}

/// What a part stands for: an empty one for nothing, `..` for the parent, and `.` for
/// the current directory where a path starts with it, else for nothing.
pub open spec fn segment_component(segment: Seq<u8>, first: bool) -> Option<ComponentView> {
    if segment.len() == 0 {
        None
    } else if segment == seq![DOT] {
        if first {
            Some(ComponentView::CurDir)
        } else {
            None
        }
    } else if segment == seq![DOT, DOT] {
        Some(ComponentView::ParentDir)
    } else {
        Some(ComponentView::Normal(segment))
    }
}

/// The components that the first `n` parts stand for.
pub open spec fn segment_components(parts: Seq<Seq<u8>>, n: int) -> Seq<ComponentView>
    decreases n,
{
    if n <= 0 {
        Seq::empty()
    } else {
        let before = segment_components(parts, n - 1);
        match segment_component(parts[n - 1], n == 1) {
            Some(component) => before.push(component),
            None => before,
        }
    }
}

/// The leading `/`, where the path has one.
pub open spec fn root_component(bytes: Seq<u8>) -> Seq<ComponentView> {
    if bytes.len() > 0 && bytes[0] == SEPARATOR {
        seq![ComponentView::RootDir]
    } else {
        Seq::empty()
    }
}

/// The components of the path that is written as `bytes`.
pub open spec fn path_components(bytes: Seq<u8>) -> Seq<ComponentView> {
    root_component(bytes) + segment_components(segments(bytes), segments(bytes).len() as int)
}

/// Whether `parent` is `child` or one of the directories above it.
pub open spec fn contains_path(parent: Seq<ComponentView>, child: Seq<ComponentView>) -> bool {
    parent.is_prefix_of(child)
}

/// The name that a path ends in: none where it ends in `/`, `.` or `..`, or is empty.
pub open spec fn file_name_of(path: Seq<ComponentView>) -> Option<Seq<u8>> {
    if path.len() > 0 {
        match path.last() {
            ComponentView::Normal(name) => Some(name),
            _ => None,
        }
    } else {
        None
    }
}

/// The directory names that no walk enters: snapshot directories, the kernel's
/// file systems, and NFS leftovers.
pub open spec fn is_critical_name(name: Seq<u8>) -> bool {
    ||| name == encode_utf8(".snapshot"@)
    ||| name == encode_utf8(".snapshots"@)
    ||| name == encode_utf8(".zfs"@)
    ||| name == encode_utf8("proc"@)
    ||| name == encode_utf8("sys"@)
    ||| name == encode_utf8("dev"@)
    ||| name == encode_utf8(".nfs"@)
}

fn same_bytes(left: &[u8], right: &[u8]) -> (same: bool)
    ensures
        same == (left@ == right@),
{
    if left.len() != right.len() {
        return false;
    }
    let mut i: usize = 0;
    while i < left.len()
        invariant
            i <= left@.len() == right@.len(),
            forall|j: int| 0 <= j < i ==> left@[j] == right@[j],
        decreases left.len() - i,
    {
        if left[i] != right[i] {
            return false;
        }
        i = i + 1;
    }
    assert(left@ =~= right@);
    true
}

/// Whether `name` is one of the directory names that no walk enters.
pub fn is_critical_skip_name(name: &[u8]) -> (critical: bool)
    ensures
        critical == is_critical_name(name@),
{
    same_bytes(name, ".snapshot".as_bytes()) || same_bytes(name, ".snapshots".as_bytes())
        || same_bytes(name, ".zfs".as_bytes()) || same_bytes(name, "proc".as_bytes())
        || same_bytes(name, "sys".as_bytes()) || same_bytes(name, "dev".as_bytes())
        || same_bytes(name, ".nfs".as_bytes())
}

impl Component {
    /// Whether two components are the same.
    pub fn same(&self, other: &Component) -> (same: bool)
        ensures
            same == (self@ == other@),
    {
        match (self, other) {
            (Component::RootDir, Component::RootDir) => true,
            (Component::CurDir, Component::CurDir) => true,
            (Component::ParentDir, Component::ParentDir) => true,
            (Component::Normal(left), Component::Normal(right)) => {
                same_bytes(left.as_slice(), right.as_slice())
            },
            _ => false,
        }
    }
}

/// Adds what a part of a path stands for.
fn push_segment(components: &mut Vec<Component>, segment: Vec<u8>, first: bool)
    ensures
        final(components)@.map_values(|c: Component| c@) == (match segment_component(
            segment@,
            first,
        ) {
            Some(component) => old(components)@.map_values(|c: Component| c@).push(component),
            None => old(components)@.map_values(|c: Component| c@),
        }),
{
    let n: usize = segment.len();
    let ghost before = components@.map_values(|c: Component| c@);
    if n == 0 {
        return;
    }
    let component = if n == 1 && segment[0] == DOT {
        assert(segment@ =~= seq![DOT]);
        if !first {
            return;
        }
        Component::CurDir
    } else if n == 2 && segment[0] == DOT && segment[1] == DOT {
        assert(segment@ =~= seq![DOT, DOT]);
        Component::ParentDir
    } else {
        Component::Normal(segment)
    };
    assert(segment_component(segment@, first) == Some(component@));
    components.push(component);
    assert(components@.map_values(|c: Component| c@) =~= before.push(component@));
}

impl ScanPath {
    /// Splits a path into its components.
    pub fn from_bytes(bytes: &[u8]) -> (path: Self)
        ensures
            path@ == path_components(bytes@),
    {
        let mut components: Vec<Component> = Vec::new();
        if bytes.len() > 0 && bytes[0] == SEPARATOR {
            components.push(Component::RootDir);
        }
        let mut segment: Vec<u8> = Vec::new();
        let mut first = true;
        let mut i: usize = 0;
        proof {
            assert(bytes@.take(0) =~= Seq::<u8>::empty());
            assert(components@.map_values(|c: Component| c@) =~= root_component(bytes@));
        }
        while i < bytes.len()
            invariant
                i <= bytes@.len(),
                segments(bytes@.take(i as int)).len() > 0,
                segment@ == segments(bytes@.take(i as int)).last(),
                first == (segments(bytes@.take(i as int)).len() == 1),
                components@.map_values(|c: Component| c@) == root_component(bytes@)
                    + segment_components(
                    segments(bytes@.take(i as int)),
                    segments(bytes@.take(i as int)).len() - 1,
                ),
            decreases bytes.len() - i,
        {
            let ghost before = segments(bytes@.take(i as int));
            let ghost after = segments(bytes@.take(i + 1));
            assert(bytes@.take(i + 1).drop_last() =~= bytes@.take(i as int));
            assert(bytes@.take(i + 1).last() == bytes@[i as int]);
            if bytes[i] == SEPARATOR {
                push_segment(&mut components, segment, first);
                segment = Vec::new();
                first = false;
                proof {
                    lemma_same_segments(before, after, before.len() as int);
                    lemma_same_segments(before, after, before.len() - 1);
                }
            } else {
                segment.push(bytes[i]);
                proof {
                    lemma_same_segments(before, after, before.len() - 1);
                }
            }
            i = i + 1;
        }
        assert(bytes@.take(bytes@.len() as int) =~= bytes@);
        push_segment(&mut components, segment, first);
        let path = ScanPath { components };
        assert(path@ =~= path_components(bytes@));
        path
    }

    /// The name that the path ends in.
    pub fn file_name(&self) -> (name: Option<&Vec<u8>>)
        ensures
            match name {
                Some(bytes) => file_name_of(self@) == Some(bytes@),
                None => file_name_of(self@) is None,
            },
    {
        let n: usize = self.components.len();
        if n == 0 {
            return None;
        }
        match &self.components[n - 1] {
            Component::Normal(name) => Some(name),
            _ => None,
        }
    }

    /// Whether the path names a directory that no walk enters.
    pub fn is_critical(&self) -> (critical: bool)
        ensures
            critical == (file_name_of(self@) matches Some(name) && is_critical_name(name)),
    {
        match self.file_name() {
            Some(name) => is_critical_skip_name(name.as_slice()),
            None => false,
        }
    }
}

/// Whether `parent` is `child` or one of the directories above it. Only whole
/// components count: `/data` is above `/data/a` and not above `/database`.
pub fn is_parent_or_same(parent: &ScanPath, child: &ScanPath) -> (above: bool)
    ensures
        above == contains_path(parent@, child@),
{
    let n: usize = parent.components.len();
    if n > child.components.len() {
        return false;
    }
    let mut i: usize = 0;
    while i < n
        invariant
            i <= n == parent.components@.len(),
            n <= child.components@.len(),
            forall|j: int| 0 <= j < i ==> parent@[j] == child@[j],
        decreases n - i,
    {
        if !parent.components[i].same(&child.components[i]) {
            assert(parent@[i as int] != child@.subrange(0, n as int)[i as int]);
            return false;
        }
        i = i + 1;
    }
    assert(parent@ =~= child@.subrange(0, n as int));
    true
}

/// The components of the first parts depend on those parts alone.
proof fn lemma_same_segments(left: Seq<Seq<u8>>, right: Seq<Seq<u8>>, n: int)
    requires
        n <= left.len(),
        n <= right.len(),
        forall|i: int| 0 <= i < n ==> left[i] == right[i],
    ensures
        segment_components(left, n) == segment_components(right, n),
    decreases n,
{
    if n > 0 {
        lemma_same_segments(left, right, n - 1);
    }
}

/// `first` and `rest` with a separator between them.
pub open spec fn path_join(first: Seq<u8>, rest: Seq<u8>) -> Seq<u8> {
    first + seq![SEPARATOR] + rest
}

proof fn lemma_has_segment(bytes: Seq<u8>)
    ensures
        segments(bytes).len() > 0,
    decreases bytes.len(),
{
    if bytes.len() > 0 {
        lemma_has_segment(bytes.drop_last());
    }
}

proof fn lemma_segments_of_join(first: Seq<u8>, rest: Seq<u8>)
    ensures
        segments(path_join(first, rest)) == segments(first) + segments(rest),
    decreases rest.len(),
{
    let whole = path_join(first, rest);
    lemma_has_segment(rest);
    if rest.len() == 0 {
        assert(whole.drop_last() =~= first);
        assert(whole.last() == SEPARATOR);
        assert(segments(whole) =~= segments(first) + segments(rest));
    } else {
        let shorter = rest.drop_last();
        lemma_segments_of_join(first, shorter);
        lemma_has_segment(shorter);
        assert(whole.drop_last() =~= path_join(first, shorter));
        assert(whole.last() == rest.last());
        assert(segments(whole) =~= segments(first) + segments(rest));
    }
}

/// The components that parts stand for with which no path starts.
spec fn later_components(parts: Seq<Seq<u8>>, n: int) -> Seq<ComponentView>
    decreases n,
{
    if n <= 0 {
        Seq::empty()
    } else {
        let before = later_components(parts, n - 1);
        match segment_component(parts[n - 1], false) {
            Some(component) => before.push(component),
            None => before,
        }
    }
}

proof fn lemma_components_of_parts(first: Seq<Seq<u8>>, rest: Seq<Seq<u8>>, n: int)
    requires
        first.len() > 0,
        0 <= n <= rest.len(),
    ensures
        segment_components(first + rest, first.len() + n) == segment_components(
            first,
            first.len() as int,
        ) + later_components(rest, n),
    decreases n,
{
    if n == 0 {
        lemma_same_segments(first + rest, first, first.len() as int);
        assert(segment_components(first, first.len() as int) =~= segment_components(
            first,
            first.len() as int,
        ) + later_components(rest, 0));
    } else {
        lemma_components_of_parts(first, rest, n - 1);
        assert((first + rest)[first.len() + n - 1] == rest[n - 1]);
        assert(segment_components(first + rest, first.len() + n) =~= segment_components(
            first,
            first.len() as int,
        ) + later_components(rest, n));
    }
}

/// A part that stands for nothing may be left out.
proof fn lemma_later_without(segment: Seq<u8>, rest: Seq<Seq<u8>>, n: int)
    requires
        segment_component(segment, false) is None,
        0 <= n <= rest.len(),
    ensures
        later_components(seq![segment] + rest, n + 1) == later_components(rest, n),
    decreases n,
{
    let whole = seq![segment] + rest;
    assert(whole[n] == if n == 0 {
        segment
    } else {
        rest[n - 1]
    });
    if n > 0 {
        lemma_later_without(segment, rest, n - 1);
    } else {
        assert(later_components(whole, 0) =~= Seq::<ComponentView>::empty());
    }
}

proof fn lemma_components_of_join(first: Seq<u8>, rest: Seq<u8>)
    ensures
        path_components(path_join(first, rest)) == root_component(path_join(first, rest))
            + segment_components(segments(first), segments(first).len() as int) + later_components(
            segments(rest),
            segments(rest).len() as int,
        ),
{
    lemma_has_segment(first);
    lemma_segments_of_join(first, rest);
    lemma_components_of_parts(segments(first), segments(rest), segments(rest).len() as int);
    assert(path_components(path_join(first, rest)) =~= root_component(path_join(first, rest))
        + segment_components(segments(first), segments(first).len() as int) + later_components(
        segments(rest),
        segments(rest).len() as int,
    ));
}

/// A part that stands for nothing makes no difference between two separators.
proof fn lemma_join_without(first: Seq<u8>, segment: Seq<u8>, rest: Seq<u8>)
    requires
        segments(segment) == seq![segment],
        segment_component(segment, false) is None,
    ensures
        path_components(path_join(first, path_join(segment, rest))) == path_components(
            path_join(first, rest),
        ),
{
    lemma_components_of_join(first, path_join(segment, rest));
    lemma_components_of_join(first, rest);
    lemma_segments_of_join(segment, rest);
    lemma_later_without(segment, segments(rest), segments(rest).len() as int);
    assert(path_join(first, rest)[0] == path_join(first, path_join(segment, rest))[0]);
}

/// A path may end in a separator or not: both name the same directory.
pub proof fn law_trailing_separator_is_ignored(bytes: Seq<u8>)
    requires
        bytes.len() > 0,
    ensures
        path_components(bytes.push(SEPARATOR)) == path_components(bytes),
{
    assert(bytes.push(SEPARATOR) =~= path_join(bytes, Seq::empty()));
    lemma_components_of_join(bytes, Seq::empty());
    assert(later_components(seq![Seq::<u8>::empty()], 1) =~= Seq::<ComponentView>::empty()) by {
        assert(later_components(seq![Seq::<u8>::empty()], 0) =~= Seq::<ComponentView>::empty());
    }
    assert(path_components(bytes.push(SEPARATOR)) =~= path_components(bytes));
}

/// A doubled separator, and `.` between two separators, make no difference.
pub proof fn law_empty_and_dot_parts_are_ignored(first: Seq<u8>, rest: Seq<u8>)
    ensures
        path_components(path_join(first, path_join(Seq::empty(), rest))) == path_components(
            path_join(first, rest),
        ),
        path_components(path_join(first, path_join(seq![DOT], rest))) == path_components(
            path_join(first, rest),
        ),
{
    lemma_join_without(first, Seq::empty(), rest);
    assert(segments(seq![DOT]) =~= seq![seq![DOT]]) by {
        assert(seq![DOT].drop_last() =~= Seq::<u8>::empty());
        assert(segments(Seq::<u8>::empty()).last().push(DOT) =~= seq![DOT]);
    }
    lemma_join_without(first, seq![DOT], rest);
}

/// A directory is above whatever is named below it.
pub proof fn law_directory_contains_what_is_named_below_it(first: Seq<u8>, rest: Seq<u8>)
    ensures
        contains_path(path_components(first), path_components(path_join(first, rest))),
{
    let whole = path_components(path_join(first, rest));
    let above = path_components(first);
    lemma_components_of_join(first, rest);
    if first.len() > 0 {
        assert(path_join(first, rest)[0] == first[0]);
        assert(above =~= whole.subrange(0, above.len() as int));
    } else {
        assert(above =~= Seq::<ComponentView>::empty()) by {
            assert(segment_components(segments(first), 0) =~= Seq::<ComponentView>::empty());
            assert(segment_components(segments(first), 1) =~= Seq::<ComponentView>::empty());
        }
        assert(above =~= whole.subrange(0, 0));
    }
}

/// Whether `part` is what may stand between two separators.
pub open spec fn has_no_separator(part: Seq<u8>) -> bool {
    forall|i: int| 0 <= i < part.len() ==> #[trigger] part[i] != 0x2f
}

/// Whether `part` names something: it is neither empty, nor `.`, nor `..`.
pub open spec fn is_plain_name(part: Seq<u8>) -> bool {
    &&& has_no_separator(part)
    &&& part.len() > 0
    &&& part != seq![0x2eu8]
    &&& part != seq![0x2eu8, 0x2eu8]
}

proof fn lemma_one_segment(part: Seq<u8>)
    requires
        has_no_separator(part),
    ensures
        segments(part) == seq![part],
    decreases part.len(),
{
    if part.len() > 0 {
        let shorter = part.drop_last();
        assert forall|i: int| 0 <= i < shorter.len() implies #[trigger] shorter[i] != 0x2f by {
            assert(part[i] != 0x2f);
        }
        lemma_one_segment(shorter);
        assert(part[part.len() - 1] != 0x2f);
        assert(shorter.push(part.last()) =~= part);
        assert(segments(part) =~= seq![part]);
    } else {
        assert(part =~= Seq::<u8>::empty());
    }
}

/// A path without a separator is what its only part stands for: nothing where it is
/// empty, the current directory, the parent directory, or something by its whole name.
pub proof fn law_path_of_one_part(part: Seq<u8>)
    requires
        has_no_separator(part),
    ensures
        part.len() == 0 ==> path_components(part).len() == 0,
        part == seq![0x2eu8] ==> path_components(part) == seq![ComponentView::CurDir],
        part == seq![0x2eu8, 0x2eu8] ==> path_components(part) == seq![ComponentView::ParentDir],
        is_plain_name(part) ==> path_components(part) == seq![ComponentView::Normal(part)],
{
    lemma_one_segment(part);
    if part.len() > 0 {
        assert(part[0] != 0x2f);
    }
    assert(segment_components(seq![part], 0) =~= Seq::<ComponentView>::empty());
    if part.len() == 0 {
        assert(path_components(part) =~= Seq::<ComponentView>::empty());
    } else if part == seq![0x2eu8] {
        assert(path_components(part) =~= seq![ComponentView::CurDir]);
    } else if part == seq![0x2eu8, 0x2eu8] {
        assert(part.len() == 2);
        assert(path_components(part) =~= seq![ComponentView::ParentDir]);
    } else {
        assert(path_components(part) =~= seq![ComponentView::Normal(part)]);
    }
}

/// What a part adds after a separator: a name adds itself whole, `..` adds the parent
/// directory, and an empty part and `.` add nothing. The root stands before the first
/// separator of a path that starts with one. With the paths of one part this settles every
/// path, since each has a last part.
pub proof fn law_path_of_parts(directory: Seq<u8>, part: Seq<u8>)
    requires
        has_no_separator(part),
    ensures
        ({
            let whole = path_components(directory + seq![0x2fu8] + part);
            let before = if directory.len() == 0 {
                seq![ComponentView::RootDir]
            } else {
                path_components(directory)
            };
            &&& part.len() == 0 ==> whole == before
            &&& part == seq![0x2eu8] ==> whole == before
            &&& part == seq![0x2eu8, 0x2eu8] ==> whole == before.push(ComponentView::ParentDir)
            &&& is_plain_name(part) ==> whole == before.push(ComponentView::Normal(part))
        }),
{
    let joined = directory + seq![0x2fu8] + part;
    let whole = path_components(joined);
    let before = if directory.len() == 0 {
        seq![ComponentView::RootDir]
    } else {
        path_components(directory)
    };
    assert(joined == path_join(directory, part));
    lemma_components_of_join(directory, part);
    lemma_one_segment(part);
    assert(later_components(seq![part], 0) =~= Seq::<ComponentView>::empty());
    if directory.len() == 0 {
        assert(joined[0] == 0x2f);
        assert(directory =~= Seq::<u8>::empty());
        assert(segment_components(segments(directory), 0) =~= Seq::<ComponentView>::empty());
        assert(segment_components(segments(directory), 1) =~= Seq::<ComponentView>::empty());
    } else {
        assert(joined[0] == directory[0]);
        assert(root_component(joined) == root_component(directory));
    }
    let later = later_components(seq![part], 1);
    assert(whole =~= before + later);
    if part.len() == 0 || part == seq![0x2eu8] {
        assert(later =~= Seq::<ComponentView>::empty());
        assert(whole =~= before);
    } else if part == seq![0x2eu8, 0x2eu8] {
        assert(part.len() == 2);
        assert(later =~= seq![ComponentView::ParentDir]);
        assert(whole =~= before.push(ComponentView::ParentDir));
    } else {
        assert(later =~= seq![ComponentView::Normal(part)]);
        assert(whole =~= before.push(ComponentView::Normal(part)));
    }
}

/// Splitting keeps names whole: a path ends in the name that it was written with, and two
/// names in one directory make two paths, neither of which is above the other.
pub proof fn law_names_are_kept(directory: Seq<u8>, left: Seq<u8>, right: Seq<u8>)
    requires
        is_plain_name(left),
        is_plain_name(right),
    ensures
        file_name_of(path_components(directory + seq![0x2fu8] + left)) == Some(left),
        left != right ==> !contains_path(
            path_components(directory + seq![0x2fu8] + left),
            path_components(directory + seq![0x2fu8] + right),
        ),
{
    law_path_of_parts(directory, left);
    law_path_of_parts(directory, right);
    let a = path_components(directory + seq![0x2fu8] + left);
    let b = path_components(directory + seq![0x2fu8] + right);
    if contains_path(a, b) {
        assert(a.len() == b.len());
        assert(a[a.len() - 1] == b[a.len() - 1]);
    }
}

/// A path is above another, or the same, just where the other starts with all of its
/// components.
pub proof fn law_above_is_a_common_start(
    parent: Seq<ComponentView>,
    child: Seq<ComponentView>,
)
    ensures
        contains_path(parent, child) <==> parent.len() <= child.len() && forall|i: int|
            0 <= i < parent.len() ==> #[trigger] parent[i] == child[i],
{
    if parent.len() <= child.len() {
        let start = child.subrange(0, parent.len() as int);
        if contains_path(parent, child) {
            assert forall|i: int| 0 <= i < parent.len() implies #[trigger] parent[i]
                == child[i] by {
                assert(start[i] == child[i]);
            }
        }
        if forall|i: int| 0 <= i < parent.len() ==> #[trigger] parent[i] == child[i] {
            assert(parent =~= start);
        }
    }
}

/// A path has a file name just where its last component is one.
pub proof fn law_file_name_is_the_last_component(path: Seq<ComponentView>, name: Seq<u8>)
    ensures
        file_name_of(path) == Some(name) <==> path.len() > 0 && path[path.len() - 1]
            == ComponentView::Normal(name),
{
}

/// Components are told apart by their kinds and by the bytes of their names.
pub proof fn law_components_are_told_apart(left: Component, right: Component)
    ensures
        left@ == right@ <==> match (left, right) {
            (Component::RootDir, Component::RootDir) => true,
            (Component::CurDir, Component::CurDir) => true,
            (Component::ParentDir, Component::ParentDir) => true,
            (Component::Normal(a), Component::Normal(b)) => a@ == b@,
            _ => false,
        },
        left is RootDir <==> left@ is RootDir,
        left is CurDir <==> left@ is CurDir,
        left is ParentDir <==> left@ is ParentDir,
        left matches Component::Normal(a) ==> left@ == ComponentView::Normal(a@),
{
}

/// A path is the sequence of its components.
pub proof fn law_path_is_its_components(path: ScanPath)
    ensures
        path@.len() == path.components@.len(),
        forall|i: int|
            0 <= i < path.components@.len() ==> path@[i] == (#[trigger] path.components@[i])@,
{
}

/// What a word of ASCII letters is as bytes.
proof fn lemma_spelled(text: Seq<char>, bytes: Seq<u8>)
    requires
        is_ascii_chars(text),
        text.len() == bytes.len(),
        forall|i: int| 0 <= i < text.len() ==> #[trigger] text[i] as u8 == bytes[i],
    ensures
        encode_utf8(text) == bytes,
{
    is_ascii_chars_encode_utf8(text);
    assert(encode_utf8(text) =~= bytes);
}

/// A name is critical just where it is one of these seven, byte by byte: `.snapshot`,
/// `.snapshots`, `.zfs`, `proc`, `sys`, `dev` and `.nfs`.
pub proof fn law_critical_names_are_these_seven(name: Seq<u8>)
    ensures
        is_critical_name(name) <==> {
            ||| name == seq![0x2eu8, 0x73, 0x6e, 0x61, 0x70, 0x73, 0x68, 0x6f, 0x74]
            ||| name == seq![0x2eu8, 0x73, 0x6e, 0x61, 0x70, 0x73, 0x68, 0x6f, 0x74, 0x73]
            ||| name == seq![0x2eu8, 0x7a, 0x66, 0x73]
            ||| name == seq![0x70u8, 0x72, 0x6f, 0x63]
            ||| name == seq![0x73u8, 0x79, 0x73]
            ||| name == seq![0x64u8, 0x65, 0x76]
            ||| name == seq![0x2eu8, 0x6e, 0x66, 0x73]
        },
{
    reveal_strlit(".snapshot");
    reveal_strlit(".snapshots");
    reveal_strlit(".zfs");
    reveal_strlit("proc");
    reveal_strlit("sys");
    reveal_strlit("dev");
    reveal_strlit(".nfs");
    lemma_spelled(".snapshot"@, seq![0x2eu8, 0x73, 0x6e, 0x61, 0x70, 0x73, 0x68, 0x6f, 0x74]);
    lemma_spelled(".snapshots"@, seq![0x2eu8, 0x73, 0x6e, 0x61, 0x70, 0x73, 0x68, 0x6f, 0x74, 0x73]);
    lemma_spelled(".zfs"@, seq![0x2eu8, 0x7a, 0x66, 0x73]);
    lemma_spelled("proc"@, seq![0x70u8, 0x72, 0x6f, 0x63]);
    lemma_spelled("sys"@, seq![0x73u8, 0x79, 0x73]);
    lemma_spelled("dev"@, seq![0x64u8, 0x65, 0x76]);
    lemma_spelled(".nfs"@, seq![0x2eu8, 0x6e, 0x66, 0x73]);
}

} // verus!
