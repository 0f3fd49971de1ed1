use vstd::prelude::*;
use crate::bytes::bytes_equal;
use crate::database::{object_id, ObjectID, ObjectKind, Storable};
use crate::entry::{
    entries_sorted, entry_le, entry_views, lemma_entry_le_total_ordering, Entry, EntryView, Mode,
};
use crate::tree::{lemma_same_multiset, lemma_sorted_entries_unique, names_distinct, tree_payload, Tree};
use crate::workspace::{parts_view, WorkspacePath};

verus! {

broadcast use vstd::seq_lib::group_to_multiset_ensures;

/// What the workspace says of a path: a directory, or a file whose blob id
/// and mode are known.
#[derive(Debug)]
pub enum PathKind {
    Directory,
    File(ObjectID, Mode),
}

/// What a `PathKind` holds.
pub enum KindView {
    Directory,
    File(Seq<u8>, Mode),
}

impl View for PathKind {
    type V = KindView;

    open spec fn view(&self) -> KindView {
        match self {
            PathKind::Directory => KindView::Directory,
            PathKind::File(o, m) => KindView::File(o@, *m),
        }
    }
}

/// One path of a workspace snapshot and what lies there.
#[derive(Debug)]
pub struct PathInfo {
    pub path: WorkspacePath,
    pub kind: PathKind,
}

/// What a `PathInfo` holds.
pub struct PathView {
    pub path: Seq<Seq<u8>>,
    pub kind: KindView,
}

impl View for PathInfo {
    type V = PathView;

    open spec fn view(&self) -> PathView {
        PathView { path: self.path@, kind: self.kind@ }
    }
}

/// The views of a sequence of paths.
pub open spec fn path_views(items: Seq<PathInfo>) -> Seq<PathView> {
    items.map_values(|p: PathInfo| p@)
}

/// `p` is a prefix of `q`, component by component.
pub open spec fn is_prefix(p: Seq<Seq<u8>>, q: Seq<Seq<u8>>) -> bool {
    p.len() <= q.len() && q.take(p.len() as int) == p
}

pub open spec fn is_file(v: PathView) -> bool {
    v.kind is File
}

/// Some file lies at `p` or below it.
pub open spec fn has_file_under(items: Seq<PathView>, p: Seq<Seq<u8>>) -> bool {
    exists|i: int| 0 <= i < items.len() && is_file(items[i]) && is_prefix(p, #[trigger] items[i].path)
}

/// A file lies exactly at `p`.
pub open spec fn has_file_at(items: Seq<PathView>, p: Seq<Seq<u8>>) -> bool {
    exists|i: int| 0 <= i < items.len() && is_file(items[i]) && #[trigger] items[i].path == p
}

/// Paths that describe one workspace snapshot: each lies below the root; a
/// path given twice is given alike, so that no path is both a file and a
/// directory; nothing lies below a file; and a file's mode is not that of a
/// directory.
pub open spec fn paths_consistent(items: Seq<PathView>) -> bool {
    &&& forall|i: int| 0 <= i < items.len() ==> (#[trigger] items[i]).path.len() > 0
    &&& forall|i: int, j: int|
        0 <= i < items.len() && 0 <= j < items.len() && #[trigger] items[i].path
            == #[trigger] items[j].path ==> items[i].kind == items[j].kind
    &&& forall|i: int, j: int|
        0 <= i < items.len() && 0 <= j < items.len() && is_file(#[trigger] items[i]) && is_prefix(
            items[i].path,
            #[trigger] items[j].path,
        ) ==> items[i].path == items[j].path
    &&& forall|i: int|
        0 <= i < items.len() && is_file(#[trigger] items[i]) ==> items[i].kind->File_1
            != Mode::Directory
}

/// The length of the longest path.
pub open spec fn max_depth(items: Seq<PathView>) -> nat
    decreases items.len(),
{
    if items.len() == 0 {
        0
    } else {
        let m = max_depth(items.drop_last());
        let l = items.last().path.len();
        if l > m {
            l
        } else {
            m
        }
    }
}

/// The entry for the file at `p`, named by its last component.
pub open spec fn file_entry(items: Seq<PathView>, p: Seq<Seq<u8>>) -> EntryView {
    let i = choose|i: int| 0 <= i < items.len() && is_file(items[i]) && #[trigger] items[i].path == p;
    EntryView { name: p.last(), oid: items[i].kind->File_0, mode: items[i].kind->File_1 }
}

/// The sorted list without duplicates that holds exactly `es`.
pub open spec fn canonical(es: Set<EntryView>) -> Seq<EntryView> {
    choose|s: Seq<EntryView>| entries_sorted(s) && s.no_duplicates() && s.to_set() == es
}

/// The entry of directory `d` for the name `c`, where `below` gives the
/// entries of the directories one level deeper: the entry of the file at
/// `d.push(c)` if there is one, else a directory entry that refers to the
/// tree of `d.push(c)`.
pub open spec fn child_with(
    items: Seq<PathView>,
    d: Seq<Seq<u8>>,
    c: Seq<u8>,
    below: spec_fn(Seq<Seq<u8>>) -> Seq<EntryView>,
) -> EntryView {
    if has_file_at(items, d.push(c)) {
        file_entry(items, d.push(c))
    } else {
        EntryView {
            name: c,
            oid: object_id(ObjectKind::Tree, tree_payload(below(d.push(c)))),
            mode: Mode::Directory,
        }
    }
}

/// The entries of directory `d`: one for each name `c` with a file at or
/// below `d.push(c)`. Directories with no file below them are left out.
pub open spec fn entries_below(
    items: Seq<PathView>,
    d: Seq<Seq<u8>>,
    below: spec_fn(Seq<Seq<u8>>) -> Seq<EntryView>,
) -> Set<EntryView> {
    Set::new(
        |e: EntryView|
            exists|c: Seq<u8>|
                #[trigger] has_file_under(items, d.push(c)) && e == child_with(items, d, c, below),
    )
}

/// For the directories of `n` components, their sorted entries.
pub open spec fn levels(items: Seq<PathView>, n: nat) -> spec_fn(Seq<Seq<u8>>) -> Seq<EntryView>
    decreases max_depth(items) - n,
{
    if n >= max_depth(items) {
        |d: Seq<Seq<u8>>| Seq::<EntryView>::empty()
    } else {
        let below = levels(items, n + 1);
        |d: Seq<Seq<u8>>| canonical(entries_below(items, d, below))
    }
}

/// The entries of the tree for directory `d`, sorted.
pub open spec fn dir_entries(items: Seq<PathView>, d: Seq<Seq<u8>>) -> Seq<EntryView> {
    levels(items, d.len())(d)
}

/// The id of the tree for directory `d`.
pub open spec fn dir_tree_id(items: Seq<PathView>, d: Seq<Seq<u8>>) -> Seq<u8> {
    object_id(ObjectKind::Tree, tree_payload(dir_entries(items, d)))
}

} // verus!

verus! {

/// The entry of directory `d` for the name `c`.
pub open spec fn child_entry(items: Seq<PathView>, d: Seq<Seq<u8>>, c: Seq<u8>) -> EntryView {
    child_with(items, d, c, levels(items, d.len() + 1))
}

/// The entries of directory `d`, as a set.
pub open spec fn dir_entry_set(items: Seq<PathView>, d: Seq<Seq<u8>>) -> Set<EntryView> {
    entries_below(items, d, levels(items, d.len() + 1))
}

/// The id of the tree whose entries are `t`.
pub open spec fn tree_id_of(t: Seq<EntryView>) -> Seq<u8> {
    object_id(ObjectKind::Tree, tree_payload(t))
}

/// Each tree is sorted and its payload is that of its entries.
pub open spec fn trees_well_built(trees: Seq<Tree>) -> bool {
    forall|k: int|
        0 <= k < trees.len() ==> entries_sorted(trees[k]@) && (#[trigger] trees[k]).payload()
            == tree_payload(trees[k]@)
}

/// Every directory entry of a tree refers to a tree that comes before it.
pub open spec fn children_first(trees: Seq<Tree>) -> bool {
    forall|k: int, t: int|
        0 <= k < trees.len() && 0 <= t < trees[k]@.len() && (#[trigger] trees[k]@[t]).mode
            == Mode::Directory ==> exists|k2: int|
            0 <= k2 < k && #[trigger] tree_id_of(trees[k2]@) == trees[k]@[t].oid
}

/// The file `items[i]` lies strictly below `d`.
pub open spec fn strictly_under(items: Seq<PathView>, d: Seq<Seq<u8>>, i: int) -> bool {
    is_file(items[i]) && is_prefix(d, items[i].path) && items[i].path.len() > d.len()
}

/// `members` lists every file strictly below `d`, and nothing else.
pub open spec fn members_exact(items: Seq<PathView>, d: Seq<Seq<u8>>, members: Seq<usize>) -> bool {
    &&& forall|k: int|
        0 <= k < members.len() ==> #[trigger] members[k] < items.len() && strictly_under(
            items,
            d,
            members[k] as int,
        )
    &&& forall|i: int|
        0 <= i < items.len() && #[trigger] strictly_under(items, d, i) ==> members.contains(
            i as usize,
        )
}

proof fn lemma_max_depth(items: Seq<PathView>)
    ensures
        forall|i: int| 0 <= i < items.len() ==> (#[trigger] items[i]).path.len() <= max_depth(items),
    decreases items.len(),
{
    if items.len() > 0 {
        lemma_max_depth(items.drop_last());
        assert forall|i: int| 0 <= i < items.len() implies (#[trigger] items[i]).path.len()
            <= max_depth(items) by {
            if i < items.len() - 1 {
                assert(items[i] == items.drop_last()[i]);
            }
        }
    }
}

proof fn lemma_push_prefix(d: Seq<Seq<u8>>, c: Seq<u8>, p: Seq<Seq<u8>>)
    ensures
        is_prefix(d.push(c), p) <==> (is_prefix(d, p) && p.len() > d.len() && p[d.len() as int]
            == c),
{
    if is_prefix(d.push(c), p) {
        assert(p.take(d.len() as int) =~= p.take(d.len() as int + 1).take(d.len() as int));
        assert(d.push(c).take(d.len() as int) =~= d);
        assert(p[d.len() as int] == p.take(d.len() as int + 1)[d.len() as int]);
    }
    if is_prefix(d, p) && p.len() > d.len() && p[d.len() as int] == c {
        assert(p.take(d.len() as int + 1) =~= d.push(c));
    }
}

proof fn lemma_dir_entries_unfold(items: Seq<PathView>, d: Seq<Seq<u8>>)
    requires
        d.len() < max_depth(items),
    ensures
        dir_entries(items, d) == canonical(dir_entry_set(items, d)),
        forall|c: Seq<u8>|
            #[trigger] child_entry(items, d, c) == (if has_file_at(items, d.push(c)) {
                file_entry(items, d.push(c))
            } else {
                EntryView { name: c, oid: dir_tree_id(items, d.push(c)), mode: Mode::Directory }
            }),
{
    assert(levels(items, d.len())(d) == canonical(entries_below(items, d, levels(items, d.len() + 1))));
    assert forall|c: Seq<u8>| levels(items, d.len() + 1)(d.push(c)) == dir_entries(items, d.push(c)) by {
        assert(d.push(c).len() == d.len() + 1);
    }
}

/// A sorted list without duplicates that holds exactly `es` is the
/// canonical one.
proof fn lemma_canonical(t: Seq<EntryView>, es: Set<EntryView>)
    requires
        entries_sorted(t),
        t.no_duplicates(),
        t.to_set() == es,
    ensures
        canonical(es) == t,
{
    let s = canonical(es);
    assert(entries_sorted(s) && s.no_duplicates() && s.to_set() == es);
    t.lemma_multiset_has_no_duplicates();
    s.lemma_multiset_has_no_duplicates();
    assert forall|x: EntryView| s.to_multiset().count(x) == t.to_multiset().count(x) by {
        assert(s.contains(x) <==> s.to_set().contains(x));
        assert(t.contains(x) <==> t.to_set().contains(x));
    }
    assert(s.to_multiset() =~= t.to_multiset());
    lemma_sorted_entries_unique(s, t);
}

/// Whether `names` holds `c`.
fn has_name(names: &Vec<Vec<u8>>, c: &[u8]) -> (r: bool)
    ensures
        r == parts_view(names@).contains(c@),
{
    let mut k: usize = 0;
    while k < names.len()
        invariant
            k <= names.len(),
            forall|j: int| 0 <= j < k ==> parts_view(names@)[j] != c@,
        decreases names.len() - k,
    {
        if bytes_equal(names[k].as_slice(), c) {
            assert(parts_view(names@)[k as int] == c@);
            return true;
        }
        k = k + 1;
    }
    false
}

/// The members whose path has component `c` at `depth` and goes deeper.
fn select_members(items: &Vec<PathInfo>, members: &Vec<usize>, depth: usize, c: &[u8]) -> (r: Vec<
    usize,
>)
    requires
        forall|k: int|
            0 <= k < members.len() ==> #[trigger] members[k] < items.len() && items@[members[k] as int]@.path.len() > depth,
    ensures
        forall|k: int|
            0 <= k < r.len() ==> members@.contains(#[trigger] r[k]) && items@[r[k] as int]@.path.len()
                > depth + 1 && items@[r[k] as int]@.path[depth as int] == c@,
        forall|k: int|
            0 <= k < members.len() && items@[members[k] as int]@.path.len() > depth + 1
                && items@[members[k] as int]@.path[depth as int] == c@ ==> r@.contains(
                #[trigger] members[k],
            ),
{
    let mut r: Vec<usize> = Vec::new();
    let mut k: usize = 0;
    while k < members.len()
        invariant
            k <= members.len(),
            forall|k: int|
                0 <= k < members.len() ==> #[trigger] members[k] < items.len() && items@[members[k] as int]@.path.len() > depth,
            forall|j: int|
                0 <= j < r.len() ==> members@.contains(#[trigger] r[j]) && items@[r[j] as int]@.path.len()
                    > depth + 1 && items@[r[j] as int]@.path[depth as int] == c@,
            forall|j: int|
                0 <= j < k && items@[members[j] as int]@.path.len() > depth + 1
                    && items@[members[j] as int]@.path[depth as int] == c@ ==> r@.contains(
                    #[trigger] members[j],
                ),
        decreases members.len() - k,
    {
        let i = members[k];
        let parts = items[i].path.components();
        assert(parts_view(parts@) == items@[i as int]@.path);
        if parts.len() > depth + 1 && bytes_equal(parts[depth].as_slice(), c) {
            assert(parts_view(parts@)[depth as int] == parts[depth as int]@);
            let ghost before = r@;
            r.push(i);
            assert(r@[r.len() - 1] == i);
            assert forall|j: int|
                0 <= j < k && items@[members[j] as int]@.path.len() > depth + 1
                    && items@[members[j] as int]@.path[depth as int] == c@ implies r@.contains(
                    #[trigger] members[j],
                ) by {
                let x = choose|x: int| 0 <= x < before.len() && before[x] == members[j];
                assert(r@[x] == members[j]);
            }
        }
        k = k + 1;
    }
    r
}

} // verus!

verus! {

proof fn lemma_sub_members(
    iv: Seq<PathView>,
    d: Seq<Seq<u8>>,
    c: Seq<u8>,
    members: Seq<usize>,
    sub: Seq<usize>,
)
    requires
        members_exact(iv, d, members),
        forall|k: int|
            0 <= k < sub.len() ==> members.contains(#[trigger] sub[k]) && iv[sub[k] as int].path.len()
                > d.len() + 1 && iv[sub[k] as int].path[d.len() as int] == c,
        forall|k: int|
            0 <= k < members.len() && iv[members[k] as int].path.len() > d.len() + 1
                && iv[members[k] as int].path[d.len() as int] == c ==> sub.contains(
                #[trigger] members[k],
            ),
        iv.len() <= usize::MAX,
    ensures
        members_exact(iv, d.push(c), sub),
{
    let dc = d.push(c);
    assert forall|x: int| 0 <= x < sub.len() implies #[trigger] sub[x] < iv.len() && strictly_under(
        iv,
        dc,
        sub[x] as int,
    ) by {
        let m = sub[x];
        let y = choose|y: int| 0 <= y < members.len() && members[y] == m;
        assert(strictly_under(iv, d, m as int));
        lemma_push_prefix(d, c, iv[m as int].path);
    }
    assert forall|x: int| 0 <= x < iv.len() && #[trigger] strictly_under(iv, dc, x) implies sub.contains(
        x as usize,
    ) by {
        lemma_push_prefix(d, c, iv[x].path);
        assert(strictly_under(iv, d, x));
        let y = choose|y: int| 0 <= y < members.len() && members[y] == x as usize;
        assert(members[y] == x as usize);
    }
}

/// The entries gathered for `d`, one for each name of a file below it, are
/// exactly the entries of `d`.
proof fn lemma_entries_complete(
    iv: Seq<PathView>,
    d: Seq<Seq<u8>>,
    members: Seq<usize>,
    ev: Seq<EntryView>,
    nv: Seq<Seq<u8>>,
)
    requires
        iv.len() <= usize::MAX,
        members_exact(iv, d, members),
        ev.len() == nv.len(),
        forall|t: int| 0 <= t < ev.len() ==> (#[trigger] ev[t]).name == nv[t],
        nv.no_duplicates(),
        forall|t: int| 0 <= t < ev.len() ==> #[trigger] ev[t] == child_entry(iv, d, nv[t]),
        forall|t: int| 0 <= t < nv.len() ==> has_file_under(iv, d.push(#[trigger] nv[t])),
        forall|j: int|
            0 <= j < members.len() ==> nv.contains(iv[#[trigger] members[j] as int].path[d.len() as int]),
    ensures
        ev.no_duplicates(),
        names_distinct(ev),
        ev.to_set() == dir_entry_set(iv, d),
{
    assert forall|a: int, b: int| 0 <= a < ev.len() && 0 <= b < ev.len() && a != b implies ev[a].name
        != ev[b].name by {
        assert(ev[a].name == nv[a]);
        assert(ev[b].name == nv[b]);
    }
    assert forall|a: int, b: int| 0 <= a < ev.len() && 0 <= b < ev.len() && a != b implies ev[a]
        != ev[b] by {
        assert(ev[a].name == nv[a]);
        assert(ev[b].name == nv[b]);
    }
    assert forall|e: EntryView| ev.contains(e) <==> dir_entry_set(iv, d).contains(e) by {
        if ev.contains(e) {
            let t = choose|t: int| 0 <= t < ev.len() && ev[t] == e;
            assert(has_file_under(iv, d.push(nv[t])));
        }
        if dir_entry_set(iv, d).contains(e) {
            let c = choose|c: Seq<u8>|
                #[trigger] has_file_under(iv, d.push(c)) && e == child_entry(iv, d, c);
            let i = choose|i: int|
                0 <= i < iv.len() && is_file(iv[i]) && is_prefix(d.push(c), #[trigger] iv[i].path);
            lemma_push_prefix(d, c, iv[i].path);
            assert(strictly_under(iv, d, i));
            let y = choose|y: int| 0 <= y < members.len() && members[y] == i as usize;
            assert(nv.contains(iv[members[y] as int].path[d.len() as int]));
            let t = choose|t: int| 0 <= t < nv.len() && nv[t] == c;
            assert(ev[t] == e);
        }
    }
    assert(ev.to_set() =~= dir_entry_set(iv, d));
}

/// Pushing a well built tree whose directory entries refer to trees already
/// there keeps the trees well built and children first.
proof fn lemma_push_tree(before: Seq<Tree>, t: Tree)
    requires
        trees_well_built(before),
        children_first(before),
        entries_sorted(t@),
        t.payload() == tree_payload(t@),
        forall|x: int|
            0 <= x < t@.len() && (#[trigger] t@[x]).mode == Mode::Directory ==> exists|k2: int|
                0 <= k2 < before.len() && #[trigger] tree_id_of(before[k2]@) == t@[x].oid,
    ensures
        trees_well_built(before.push(t)),
        children_first(before.push(t)),
{
    let o = before.push(t);
    assert forall|x: int| 0 <= x < o.len() implies entries_sorted(o[x]@) && (#[trigger] o[x]).payload()
        == tree_payload(o[x]@) by {
        if x < before.len() {
            assert(o[x] == before[x]);
        }
    }
    assert forall|x: int, y: int|
        0 <= x < o.len() && 0 <= y < o[x]@.len() && (#[trigger] o[x]@[y]).mode == Mode::Directory
            implies exists|k2: int| 0 <= k2 < x && #[trigger] tree_id_of(o[k2]@) == o[x]@[y].oid by {
        if x < before.len() {
            assert(o[x] == before[x]);
            let k2 = choose|k2: int|
                0 <= k2 < x && #[trigger] tree_id_of(before[k2]@) == before[x]@[y].oid;
            assert(o[k2] == before[k2]);
        } else {
            let k2 = choose|k2: int|
                0 <= k2 < before.len() && #[trigger] tree_id_of(before[k2]@) == t@[y].oid;
            assert(o[k2] == before[k2]);
        }
    }
}

/// Directory `d` gets a tree: it is the root, or a file lies strictly below
/// it.
pub open spec fn has_tree(items: Seq<PathView>, d: Seq<Seq<u8>>) -> bool {
    d.len() == 0 || exists|i: int| 0 <= i < items.len() && #[trigger] strictly_under(items, d, i)
}

/// From `start` on, `trees` are the trees of the directories `ds`, in order.
pub open spec fn trees_of(
    items: Seq<PathView>,
    trees: Seq<Tree>,
    start: int,
    ds: Seq<Seq<Seq<u8>>>,
) -> bool {
    &&& trees.len() == start + ds.len()
    &&& forall|k: int|
        0 <= k < ds.len() ==> trees[start + k]@ == dir_entries(items, #[trigger] ds[k]) && has_tree(
            items,
            ds[k],
        )
}

/// `acc` lists, once each, the directories strictly below `d` that get a
/// tree and lie under one of `names`.
spec fn below_names(
    items: Seq<PathView>,
    d: Seq<Seq<u8>>,
    names: Seq<Seq<u8>>,
    acc: Seq<Seq<Seq<u8>>>,
) -> bool {
    &&& acc.no_duplicates()
    &&& forall|k: int|
        0 <= k < acc.len() ==> is_prefix(d, #[trigger] acc[k]) && acc[k].len() > d.len()
            && names.contains(acc[k][d.len() as int])
    &&& forall|e: Seq<Seq<u8>>|
        is_prefix(d, e) && e.len() > d.len() && #[trigger] has_tree(items, e) && names.contains(
            e[d.len() as int],
        ) ==> acc.contains(e)
}

proof fn lemma_prefix_trans(a: Seq<Seq<u8>>, b: Seq<Seq<u8>>, c: Seq<Seq<u8>>)
    requires
        is_prefix(a, b),
        is_prefix(b, c),
    ensures
        is_prefix(a, c),
{
    assert(c.take(a.len() as int) =~= c.take(b.len() as int).take(a.len() as int));
}

/// A directory that gets a tree lies below no file.
proof fn lemma_no_tree_below_file(items: Seq<PathView>, f: int, e: Seq<Seq<u8>>)
    requires
        paths_consistent(items),
        0 <= f < items.len(),
        is_file(items[f]),
        is_prefix(items[f].path, e),
        e.len() > 0,
    ensures
        !has_tree(items, e),
{
    if has_tree(items, e) {
        let j = choose|j: int| 0 <= j < items.len() && #[trigger] strictly_under(items, e, j);
        lemma_prefix_trans(items[f].path, e, items[j].path);
        assert(items[f].path == items[j].path);
    }
}

proof fn lemma_below_file(
    items: Seq<PathView>,
    d: Seq<Seq<u8>>,
    c: Seq<u8>,
    names: Seq<Seq<u8>>,
    acc: Seq<Seq<Seq<u8>>>,
)
    requires
        paths_consistent(items),
        below_names(items, d, names, acc),
        has_file_at(items, d.push(c)),
    ensures
        below_names(items, d, names.push(c), acc),
{
    let f = choose|f: int| 0 <= f < items.len() && is_file(items[f]) && #[trigger] items[f].path == d.push(c);
    assert forall|k: int| 0 <= k < acc.len() implies names.push(c).contains(#[trigger] acc[k][d.len() as int]) by {
        let x = choose|x: int| 0 <= x < names.len() && names[x] == acc[k][d.len() as int];
        assert(names.push(c)[x] == names[x]);
    }
    assert forall|e: Seq<Seq<u8>>|
        is_prefix(d, e) && e.len() > d.len() && #[trigger] has_tree(items, e) && names.push(c).contains(
            e[d.len() as int],
        ) implies acc.contains(e) by {
        if e[d.len() as int] == c {
            lemma_push_prefix(d, c, e);
            lemma_no_tree_below_file(items, f, e);
        } else {
            let x = choose|x: int| 0 <= x < names.push(c).len() && names.push(c)[x] == e[d.len() as int];
            assert(names[x] == e[d.len() as int]);
        }
    }
}

proof fn lemma_below_dir(
    items: Seq<PathView>,
    d: Seq<Seq<u8>>,
    c: Seq<u8>,
    names: Seq<Seq<u8>>,
    acc: Seq<Seq<Seq<u8>>>,
    cds: Seq<Seq<Seq<u8>>>,
)
    requires
        below_names(items, d, names, acc),
        !names.contains(c),
        cds.no_duplicates(),
        forall|k: int| 0 <= k < cds.len() ==> is_prefix(d.push(c), #[trigger] cds[k]),
        forall|e: Seq<Seq<u8>>| is_prefix(d.push(c), e) && #[trigger] has_tree(items, e) ==> cds.contains(e),
    ensures
        below_names(items, d, names.push(c), acc + cds),
{
    let all = acc + cds;
    assert forall|i: int, j: int| 0 <= i < acc.len() && 0 <= j < cds.len() implies acc[i] != cds[j] by {
        lemma_push_prefix(d, c, cds[j]);
    }
    vstd::seq_lib::lemma_no_dup_in_concat(acc, cds);
    assert forall|k: int| 0 <= k < all.len() implies is_prefix(d, #[trigger] all[k]) && all[k].len()
        > d.len() && names.push(c).contains(all[k][d.len() as int]) by {
        if k < acc.len() {
            assert(all[k] == acc[k]);
            let x = choose|x: int| 0 <= x < names.len() && names[x] == acc[k][d.len() as int];
            assert(names.push(c)[x] == names[x]);
        } else {
            assert(all[k] == cds[k - acc.len()]);
            lemma_push_prefix(d, c, cds[k - acc.len()]);
            assert(names.push(c)[names.len() as int] == c);
        }
    }
    assert forall|e: Seq<Seq<u8>>|
        is_prefix(d, e) && e.len() > d.len() && #[trigger] has_tree(items, e) && names.push(c).contains(
            e[d.len() as int],
        ) implies all.contains(e) by {
        if e[d.len() as int] == c {
            lemma_push_prefix(d, c, e);
            let x = choose|x: int| 0 <= x < cds.len() && cds[x] == e;
            assert(all[acc.len() + x] == e);
        } else {
            let x = choose|x: int| 0 <= x < names.push(c).len() && names.push(c)[x] == e[d.len() as int];
            assert(names[x] == e[d.len() as int]);
            let y = choose|y: int| 0 <= y < acc.len() && acc[y] == e;
            assert(all[y] == e);
        }
    }
}

proof fn lemma_trees_of_concat(
    items: Seq<PathView>,
    t1: Seq<Tree>,
    t2: Seq<Tree>,
    start: int,
    a: Seq<Seq<Seq<u8>>>,
    b: Seq<Seq<Seq<u8>>>,
)
    requires
        0 <= start,
        trees_of(items, t1, start, a),
        t2.len() >= t1.len(),
        t2.take(t1.len() as int) == t1,
        trees_of(items, t2, t1.len() as int, b),
    ensures
        trees_of(items, t2, start, a + b),
{
    let ab = a + b;
    assert forall|k: int| 0 <= k < ab.len() implies t2[start + k]@ == dir_entries(items, #[trigger] ab[k])
        && has_tree(items, ab[k]) by {
        if k < a.len() {
            assert(ab[k] == a[k]);
            assert(t2.take(t1.len() as int)[start + k] == t2[start + k]);
        } else {
            assert(ab[k] == b[k - a.len()]);
        }
    }
}

proof fn lemma_close_dir(
    iv: Seq<PathView>,
    d: Seq<Seq<u8>>,
    members: Seq<usize>,
    nv: Seq<Seq<u8>>,
    acc: Seq<Seq<Seq<u8>>>,
)
    requires
        iv.len() <= usize::MAX,
        members_exact(iv, d, members),
        below_names(iv, d, nv, acc),
        forall|j: int| 0 <= j < members.len() ==> nv.contains(iv[#[trigger] members[j] as int].path[d.len() as int]),
    ensures
        acc.push(d).no_duplicates(),
        forall|k: int| 0 <= k < acc.push(d).len() ==> is_prefix(d, #[trigger] acc.push(d)[k]),
        forall|e: Seq<Seq<u8>>| is_prefix(d, e) && #[trigger] has_tree(iv, e) ==> acc.push(d).contains(e),
{
    let ds = acc.push(d);
    assert(d.take(d.len() as int) =~= d);
    assert forall|a: int, b: int| 0 <= a < ds.len() && 0 <= b < ds.len() && a != b implies ds[a]
        != ds[b] by {
        if a < acc.len() && b < acc.len() {
            assert(ds[a] == acc[a] && ds[b] == acc[b]);
        } else if a < acc.len() {
            assert(acc[a].len() > d.len());
        } else if b < acc.len() {
            assert(acc[b].len() > d.len());
        }
    }
    assert forall|k: int| 0 <= k < ds.len() implies is_prefix(d, #[trigger] ds[k]) by {
        if k < acc.len() {
            assert(ds[k] == acc[k]);
        }
    }
    assert forall|e: Seq<Seq<u8>>| is_prefix(d, e) && #[trigger] has_tree(iv, e) implies ds.contains(e) by {
        if e.len() == d.len() {
            assert(e =~= d);
            assert(ds[acc.len() as int] == d);
        } else {
            let j = choose|j: int| 0 <= j < iv.len() && #[trigger] strictly_under(iv, e, j);
            lemma_prefix_trans(d, e, iv[j].path);
            assert(strictly_under(iv, d, j));
            let y = choose|y: int| 0 <= y < members.len() && members[y] == j as usize;
            assert(nv.contains(iv[members[y] as int].path[d.len() as int]));
            assert(iv[j].path[d.len() as int] == iv[j].path.take(e.len() as int)[d.len() as int]);
            assert(e[d.len() as int] == iv[j].path[d.len() as int]);
            let x = choose|x: int| 0 <= x < acc.len() && acc[x] == e;
            assert(ds[x] == e);
        }
    }
}

/// Builds the tree of directory `d` (of `depth` components) from the files
/// strictly below it, listed in `members`; pushes onto `out` the trees of
/// its subdirectories and then its own, and returns its id.
#[verifier::rlimit(40)]
fn build_dir(
    items: &Vec<PathInfo>,
    depth: usize,
    members: &Vec<usize>,
    out: &mut Vec<Tree>,
    Ghost(d): Ghost<Seq<Seq<u8>>>,
) -> (r: (ObjectID, Ghost<Seq<Seq<Seq<u8>>>>))
    requires
        paths_consistent(path_views(items@)),
        d.len() == depth,
        members_exact(path_views(items@), d, members@),
        has_tree(path_views(items@), d),
        trees_well_built(old(out)@),
        children_first(old(out)@),
    ensures
        final(out)@.len() > old(out)@.len(),
        final(out)@.take(old(out)@.len() as int) == old(out)@,
        final(out)@.last()@ == dir_entries(path_views(items@), d),
        r.0@ == dir_tree_id(path_views(items@), d),
        trees_well_built(final(out)@),
        children_first(final(out)@),
        trees_of(path_views(items@), final(out)@, old(out)@.len() as int, r.1@),
        r.1@.no_duplicates(),
        forall|k: int| 0 <= k < r.1@.len() ==> is_prefix(d, #[trigger] r.1@[k]),
        forall|e: Seq<Seq<u8>>|
            is_prefix(d, e) && #[trigger] has_tree(path_views(items@), e) ==> r.1@.contains(e),
    decreases max_depth(path_views(items@)) - depth,
{
    let ghost iv = path_views(items@);
    let ghost out0 = out@;
    proof {
        lemma_max_depth(iv);
        assert(iv.len() == items.len());
    }
    let mut entries: Vec<Entry> = Vec::new();
    let mut names: Vec<Vec<u8>> = Vec::new();
    let ghost mut acc: Seq<Seq<Seq<u8>>> = Seq::empty();
    let mut k: usize = 0;
    assert(parts_view(names@) =~= Seq::<Seq<u8>>::empty());
    assert(out@.take(out0.len() as int) =~= out0);
    while k < members.len()
        invariant
            trees_of(iv, out@, out0.len() as int, acc),
            below_names(iv, d, parts_view(names@), acc),
            iv == path_views(items@),
            iv.len() == items.len(),
            paths_consistent(iv),
            forall|x: int| 0 <= x < iv.len() ==> (#[trigger] iv[x]).path.len() <= max_depth(iv),
            d.len() == depth,
            members_exact(iv, d, members@),
            k <= members.len(),
            names.len() == entries.len(),
            entries.len() <= k,
            forall|t: int|
                0 <= t < entries.len() ==> (#[trigger] entry_views(entries@)[t]).name == parts_view(
                    names@,
                )[t],
            parts_view(names@).no_duplicates(),
            forall|t: int|
                0 <= t < entries.len() ==> #[trigger] entry_views(entries@)[t] == child_entry(
                    iv,
                    d,
                    parts_view(names@)[t],
                ),
            forall|t: int|
                0 <= t < names.len() ==> has_file_under(iv, d.push(#[trigger] parts_view(names@)[t])),
            forall|j: int|
                0 <= j < k ==> parts_view(names@).contains(
                    iv[#[trigger] members@[j] as int].path[depth as int],
                ),
            out@.len() >= out0.len(),
            out@.take(out0.len() as int) == out0,
            trees_well_built(out@),
            children_first(out@),
            forall|t: int|
                0 <= t < entries.len() && (#[trigger] entry_views(entries@)[t]).mode == Mode::Directory
                    ==> exists|k2: int|
                    0 <= k2 < out@.len() && #[trigger] tree_id_of(out@[k2]@) == entry_views(
                        entries@,
                    )[t].oid,
        decreases members.len() - k,
    {
        let i = members[k];
        let parts = items[i].path.components();
        let ghost nv0 = parts_view(names@);
        let ghost ev0 = entry_views(entries@);
        let ghost out1 = out@;
        proof {
            assert(strictly_under(iv, d, i as int));
            assert(parts_view(parts@) == iv[i as int].path);
        }
        let c = parts[depth].as_slice();
        assert(c@ == iv[i as int].path[depth as int]);
        if !has_name(&names, c) {
            proof {
                lemma_push_prefix(d, c@, iv[i as int].path);
                lemma_dir_entries_unfold(iv, d);
            }
            if parts.len() == depth + 1 {
                match &items[i].kind {
                    PathKind::File(oid, mode) => {
                        proof {
                            assert(iv[i as int].path =~= d.push(c@));
                            assert(has_file_at(iv, d.push(c@)));
                            let j = choose|j: int|
                                0 <= j < iv.len() && is_file(iv[j]) && #[trigger] iv[j].path == d.push(c@);
                            assert(iv[j].kind == iv[i as int].kind);
                            assert(is_file(iv[i as int]));
                        }
                        entries.push(Entry::new(vstd::slice::slice_to_vec(c), oid.clone(), *mode));
                        proof {
                            assert(entry_views(entries@).last().mode != Mode::Directory);
                            lemma_below_file(iv, d, c@, nv0, acc);
                        }
                    },
                    PathKind::Directory => {
                        assert(false);
                    },
                }
            } else {
                proof {
                    if has_file_at(iv, d.push(c@)) {
                        let j = choose|j: int|
                            0 <= j < iv.len() && is_file(iv[j]) && #[trigger] iv[j].path == d.push(c@);
                        assert(is_prefix(iv[j].path, iv[i as int].path));
                    }
                }
                let sub = select_members(items, members, depth, c);
                proof {
                    lemma_sub_members(iv, d, c@, members@, sub@);
                }
                proof {
                    assert(strictly_under(iv, d.push(c@), i as int)) by {
                        lemma_push_prefix(d, c@, iv[i as int].path);
                    }
                }
                let (oid, cds) = build_dir(items, depth + 1, &sub, out, Ghost(d.push(c@)));
                proof {
                    lemma_below_dir(iv, d, c@, nv0, acc, cds@);
                    lemma_trees_of_concat(iv, out1, out@, out0.len() as int, acc, cds@);
                    acc = acc + cds@;
                }
                entries.push(Entry::new(vstd::slice::slice_to_vec(c), oid, Mode::Directory));
                proof {
                    let o = out@;
                    assert(o.take(out0.len() as int) =~= out0) by {
                        assert forall|x: int| 0 <= x < out0.len() implies o[x] == out0[x] by {
                            assert(o.take(out1.len() as int)[x] == out1[x]);
                            assert(out1.take(out0.len() as int)[x] == out1[x]);
                        }
                    }
                    assert(tree_id_of(o[o.len() - 1]@) == entry_views(entries@).last().oid);
                    assert forall|t: int|
                        0 <= t < entries.len() && (#[trigger] entry_views(entries@)[t]).mode
                            == Mode::Directory implies exists|k2: int|
                        0 <= k2 < o.len() && #[trigger] tree_id_of(o[k2]@) == entry_views(
                            entries@,
                        )[t].oid by {
                        if t < ev0.len() {
                            assert(entry_views(entries@)[t] == ev0[t]);
                            let k2 = choose|k2: int|
                                0 <= k2 < out1.len() && #[trigger] tree_id_of(out1[k2]@) == ev0[t].oid;
                            assert(o.take(out1.len() as int)[k2] == out1[k2]);
                        } else {
                            assert(tree_id_of(o[o.len() - 1]@) == entry_views(entries@)[t].oid);
                        }
                    }
                }
            }
            names.push(vstd::slice::slice_to_vec(c));
            proof {
                assert(entry_views(entries@) =~= ev0.push(entry_views(entries@).last()));
                assert(parts_view(names@) =~= nv0.push(c@));
                assert(!nv0.contains(c@));
                assert(has_file_under(iv, d.push(c@)));
                assert(parts_view(names@)[nv0.len() as int] == c@);
            }
        }
        proof {
            let nv = parts_view(names@);
            assert forall|j: int| 0 <= j < k + 1 implies nv.contains(
                iv[#[trigger] members@[j] as int].path[depth as int],
            ) by {
                if j < k {
                    let x = choose|x: int|
                        0 <= x < nv0.len() && nv0[x] == iv[members@[j] as int].path[depth as int];
                    assert(nv[x] == nv0[x]);
                } else {
                    assert(members@[j] == i);
                    assert(nv.contains(c@));
                }
            }
        }
        k = k + 1;
    }
    let ghost ev = entry_views(entries@);
    let ghost nv = parts_view(names@);
    proof {
        lemma_entries_complete(iv, d, members@, ev, nv);
        if d.len() < max_depth(iv) {
            lemma_dir_entries_unfold(iv, d);
        } else if members.len() > 0 {
            assert(strictly_under(iv, d, members@[0] as int));
            assert(false);
        }
    }
    let tree = Tree::new(entries);
    proof {
        lemma_same_multiset(ev, tree@);
        if d.len() < max_depth(iv) {
            lemma_canonical(tree@, dir_entry_set(iv, d));
        } else {
            assert(tree@.to_multiset().len() == ev.to_multiset().len());
            assert(tree@.len() == ev.len());
            assert(tree@ =~= dir_entries(iv, d));
        }
    }
    let oid = tree.oid();
    let ghost tv = tree@;
    let ghost before = out@;
    proof {
        assert forall|t: int| 0 <= t < tv.len() && tv[t].mode == Mode::Directory implies exists|k2: int|
            0 <= k2 < before.len() && #[trigger] tree_id_of(before[k2]@) == tv[t].oid by {
            assert(tv.to_multiset().count(tv[t]) > 0);
            assert(ev.contains(tv[t]));
            let t2 = choose|t2: int| 0 <= t2 < ev.len() && ev[t2] == tv[t];
            assert(entry_views(entries@)[t2].mode == Mode::Directory);
        }
    }
    proof {
        lemma_push_tree(before, tree);
    }
    out.push(tree);
    let ghost ds = acc.push(d);
    proof {
        let o = out@;
        assert(o.take(out0.len() as int) =~= out0) by {
            assert forall|x: int| 0 <= x < out0.len() implies o[x] == out0[x] by {
                assert(o[x] == before[x]);
                assert(before.take(out0.len() as int)[x] == before[x]);
            }
        }
        assert forall|x: int| 0 <= x < ds.len() implies o[out0.len() + x]@ == dir_entries(
            iv,
            #[trigger] ds[x],
        ) && has_tree(iv, ds[x]) by {
            if x < acc.len() {
                assert(ds[x] == acc[x]);
                assert(o[out0.len() + x] == before[out0.len() + x]);
            }
        }
        lemma_close_dir(iv, d, members@, nv, acc);
    }
    (oid, Ghost(ds))
}

} // verus!

verus! {

impl Tree {
    /// The trees of a workspace snapshot, in the order in which they must be
    /// stored: each after the trees it refers to, the root tree last. The
    /// root holds the entries of the top directory; file entries carry the
    /// blob ids and modes given, directory entries the ids of the trees of
    /// their directories. There is exactly one tree for each directory that
    /// gets one (the root, and each directory with a file below it), so
    /// directories with no file below them are left out.
    pub fn build(paths: &Vec<PathInfo>) -> (r: Vec<Tree>)
        requires
            paths_consistent(path_views(paths@)),
        ensures
            r@.len() > 0,
            r@.last()@ == dir_entries(path_views(paths@), Seq::empty()),
            trees_well_built(r@),
            children_first(r@),
            exists|dirs: Seq<Seq<Seq<u8>>>|
                {
                    &&& trees_of(path_views(paths@), r@, 0, dirs)
                    &&& dirs.no_duplicates()
                    &&& forall|e: Seq<Seq<u8>>| #[trigger] has_tree(path_views(paths@), e) ==> dirs.contains(e)
                },
    {
        let ghost iv = path_views(paths@);
        let mut members: Vec<usize> = Vec::new();
        let mut i: usize = 0;
        while i < paths.len()
            invariant
                iv == path_views(paths@),
                i <= paths.len(),
                forall|k: int|
                    0 <= k < members.len() ==> #[trigger] members@[k] < i && is_file(
                        iv[members@[k] as int],
                    ),
                forall|j: int| 0 <= j < i && is_file(iv[j]) ==> #[trigger] members@.contains(j as usize),
            decreases paths.len() - i,
        {
            match &paths[i].kind {
                PathKind::File(_, _) => {
                    let ghost before = members@;
                    members.push(i);
                    proof {
                        assert(members@[members.len() - 1] == i);
                        assert forall|j: int| 0 <= j < i && is_file(iv[j]) implies #[trigger] members@.contains(
                            j as usize,
                        ) by {
                            if j < i {
                                assert(before.contains(j as usize));
                                let x = choose|x: int| 0 <= x < before.len() && before[x] == j as usize;
                                assert(members@[x] == before[x]);
                            }
                        }
                    }
                },
                PathKind::Directory => {},
            }
            i = i + 1;
        }
        proof {
            let d = Seq::<Seq<u8>>::empty();
            assert forall|k: int| 0 <= k < members.len() implies #[trigger] members@[k] < iv.len()
                && strictly_under(iv, d, members@[k] as int) by {
                let p = iv[members@[k] as int].path;
                assert(p.take(0) =~= d);
            }
            assert forall|j: int| 0 <= j < iv.len() && #[trigger] strictly_under(iv, d, j) implies members@.contains(
                j as usize,
            ) by {}
        }
        let mut out: Vec<Tree> = Vec::new();
        let (_, dirs) = build_dir(paths, 0, &members, &mut out, Ghost(Seq::empty()));
        proof {
            assert forall|e: Seq<Seq<u8>>| #[trigger] has_tree(iv, e) implies dirs@.contains(e) by {
                assert(e.take(0) =~= Seq::<Seq<u8>>::empty());
            }
            assert(trees_of(iv, out@, 0, dirs@));
        }
        out
    }
}

/// Whether two component lists are equal.
fn components_equal(a: &Vec<Vec<u8>>, b: &Vec<Vec<u8>>) -> (r: bool)
    ensures
        r == (parts_view(a@) == parts_view(b@)),
{
    if a.len() != b.len() {
        assert(parts_view(a@).len() != parts_view(b@).len());
        return false;
    }
    let mut k: usize = 0;
    while k < a.len()
        invariant
            k <= a.len(),
            a.len() == b.len(),
            forall|j: int| 0 <= j < k ==> parts_view(a@)[j] == parts_view(b@)[j],
        decreases a.len() - k,
    {
        if !bytes_equal(a[k].as_slice(), b[k].as_slice()) {
            assert(parts_view(a@)[k as int] != parts_view(b@)[k as int]);
            return false;
        }
        k = k + 1;
    }
    assert(parts_view(a@) =~= parts_view(b@));
    true
}

/// Whether `a` is a prefix of `b`, component by component.
fn components_prefix(a: &Vec<Vec<u8>>, b: &Vec<Vec<u8>>) -> (r: bool)
    ensures
        r == is_prefix(parts_view(a@), parts_view(b@)),
{
    let ghost av = parts_view(a@);
    let ghost bv = parts_view(b@);
    if a.len() > b.len() {
        return false;
    }
    let mut k: usize = 0;
    while k < a.len()
        invariant
            k <= a.len(),
            a.len() <= b.len(),
            av == parts_view(a@),
            bv == parts_view(b@),
            forall|j: int| 0 <= j < k ==> av[j] == bv[j],
        decreases a.len() - k,
    {
        if !bytes_equal(a[k].as_slice(), b[k].as_slice()) {
            assert(bv.take(av.len() as int)[k as int] != av[k as int]);
            return false;
        }
        k = k + 1;
    }
    assert(bv.take(av.len() as int) =~= av);
    true
}

/// Whether two path kinds say the same.
fn kinds_equal(a: &PathKind, b: &PathKind) -> (r: bool)
    ensures
        r == (a@ == b@),
{
    match (a, b) {
        (PathKind::Directory, PathKind::Directory) => true,
        (PathKind::File(oa, ma), PathKind::File(ob, mb)) => {
            bytes_equal(oa.as_bytes(), ob.as_bytes()) && *ma == *mb
        },
        _ => false,
    }
}

/// Whether the paths describe one workspace snapshot, as `Tree::build`
/// requires.
pub fn paths_are_consistent(paths: &Vec<PathInfo>) -> (r: bool)
    ensures
        r == paths_consistent(path_views(paths@)),
{
    let ghost iv = path_views(paths@);
    let mut i: usize = 0;
    while i < paths.len()
        invariant
            iv == path_views(paths@),
            i <= paths.len(),
            forall|x: int| 0 <= x < i ==> (#[trigger] iv[x]).path.len() > 0,
            forall|x: int|
                0 <= x < i && is_file(#[trigger] iv[x]) ==> iv[x].kind->File_1 != Mode::Directory,
            forall|x: int, y: int|
                0 <= x < i && 0 <= y < paths.len() && #[trigger] iv[x].path == #[trigger] iv[y].path
                    ==> iv[x].kind == iv[y].kind,
            forall|x: int, y: int|
                0 <= x < i && 0 <= y < paths.len() && is_file(#[trigger] iv[x]) && is_prefix(
                    iv[x].path,
                    #[trigger] iv[y].path,
                ) ==> iv[x].path == iv[y].path,
        decreases paths.len() - i,
    {
        let pi = paths[i].path.components();
        assert(parts_view(pi@) == iv[i as int].path);
        if pi.len() == 0 {
            return false;
        }
        let file_i = match &paths[i].kind {
            PathKind::File(_, m) => {
                if *m == Mode::Directory {
                    return false;
                }
                true
            },
            PathKind::Directory => false,
        };
        let mut j: usize = 0;
        while j < paths.len()
            invariant
                iv == path_views(paths@),
                i < paths.len(),
                j <= paths.len(),
                parts_view(pi@) == iv[i as int].path,
                file_i == is_file(iv[i as int]),
                forall|y: int|
                    0 <= y < j && #[trigger] iv[y].path == iv[i as int].path ==> iv[i as int].kind
                        == iv[y].kind,
                forall|y: int|
                    0 <= y < j && file_i && is_prefix(iv[i as int].path, #[trigger] iv[y].path)
                        ==> iv[i as int].path == iv[y].path,
            decreases paths.len() - j,
        {
            let pj = paths[j].path.components();
            assert(parts_view(pj@) == iv[j as int].path);
            let same = components_equal(pi, pj);
            if same && !kinds_equal(&paths[i].kind, &paths[j].kind) {
                return false;
            }
            if file_i && !same && components_prefix(pi, pj) {
                return false;
            }
            j = j + 1;
        }
        i = i + 1;
    }
    true
}

} // verus!

verus! {

proof fn lemma_max_depth_attained(items: Seq<PathView>)
    ensures
        items.len() == 0 ==> max_depth(items) == 0,
        items.len() > 0 ==> exists|i: int|
            0 <= i < items.len() && (#[trigger] items[i]).path.len() == max_depth(items),
    decreases items.len(),
{
    if items.len() > 0 {
        lemma_max_depth_attained(items.drop_last());
        if items.drop_last().len() > 0 && items.last().path.len() <= max_depth(items.drop_last()) {
            let i = choose|i: int|
                0 <= i < items.drop_last().len() && (#[trigger] items.drop_last()[i]).path.len()
                    == max_depth(items.drop_last());
            assert(items[i] == items.drop_last()[i]);
        } else {
            assert(items[items.len() - 1] == items.last());
        }
    }
}

proof fn lemma_same_paths_same_depth(a: Seq<PathView>, b: Seq<PathView>)
    requires
        a.to_set() == b.to_set(),
    ensures
        max_depth(a) == max_depth(b),
{
    lemma_max_depth(a);
    lemma_max_depth(b);
    lemma_max_depth_attained(a);
    lemma_max_depth_attained(b);
    if a.len() > 0 {
        let i = choose|i: int| 0 <= i < a.len() && (#[trigger] a[i]).path.len() == max_depth(a);
        assert(a.to_set().contains(a[i]));
        assert(b.contains(a[i]));
    }
    if b.len() > 0 {
        let i = choose|i: int| 0 <= i < b.len() && (#[trigger] b[i]).path.len() == max_depth(b);
        assert(b.to_set().contains(b[i]));
        assert(a.contains(b[i]));
    }
    if a.len() == 0 && b.len() > 0 {
        assert(b.to_set().contains(b[0]));
        assert(a.contains(b[0]));
    }
    if b.len() == 0 && a.len() > 0 {
        assert(a.to_set().contains(a[0]));
        assert(b.contains(a[0]));
    }
}

proof fn lemma_same_paths_same_files(a: Seq<PathView>, b: Seq<PathView>, p: Seq<Seq<u8>>)
    requires
        a.to_set() == b.to_set(),
        paths_consistent(a),
        paths_consistent(b),
    ensures
        has_file_under(a, p) == has_file_under(b, p),
        has_file_at(a, p) == has_file_at(b, p),
        has_file_at(a, p) ==> file_entry(a, p) == file_entry(b, p),
{
    if has_file_under(a, p) {
        let i = choose|i: int| 0 <= i < a.len() && is_file(a[i]) && is_prefix(p, #[trigger] a[i].path);
        assert(a.to_set().contains(a[i]));
        assert(b.contains(a[i]));
    }
    if has_file_under(b, p) {
        let i = choose|i: int| 0 <= i < b.len() && is_file(b[i]) && is_prefix(p, #[trigger] b[i].path);
        assert(b.to_set().contains(b[i]));
        assert(a.contains(b[i]));
    }
    if has_file_at(a, p) {
        let i = choose|i: int| 0 <= i < a.len() && is_file(a[i]) && #[trigger] a[i].path == p;
        assert(a.to_set().contains(a[i]));
        assert(b.contains(a[i]));
    }
    if has_file_at(b, p) {
        let i = choose|i: int| 0 <= i < b.len() && is_file(b[i]) && #[trigger] b[i].path == p;
        assert(b.to_set().contains(b[i]));
        assert(a.contains(b[i]));
    }
    if has_file_at(a, p) {
        let ia = choose|i: int| 0 <= i < a.len() && is_file(a[i]) && #[trigger] a[i].path == p;
        let ib = choose|i: int| 0 <= i < b.len() && is_file(b[i]) && #[trigger] b[i].path == p;
        assert(b.to_set().contains(b[ib]));
        assert(a.contains(b[ib]));
        let j = choose|j: int| 0 <= j < a.len() && a[j] == b[ib];
        assert(a[j].path == a[ia].path);
    }
}

proof fn lemma_same_paths_same_dir(a: Seq<PathView>, b: Seq<PathView>, d: Seq<Seq<u8>>)
    requires
        a.to_set() == b.to_set(),
        paths_consistent(a),
        paths_consistent(b),
    ensures
        dir_entries(a, d) == dir_entries(b, d),
    decreases max_depth(a) - d.len(),
{
    lemma_same_paths_same_depth(a, b);
    if d.len() < max_depth(a) {
        lemma_dir_entries_unfold(a, d);
        lemma_dir_entries_unfold(b, d);
        assert forall|c: Seq<u8>| child_entry(a, d, c) == child_entry(b, d, c) by {
            lemma_same_paths_same_files(a, b, d.push(c));
            if !has_file_at(a, d.push(c)) {
                lemma_same_paths_same_dir(a, b, d.push(c));
            }
        }
        assert forall|c: Seq<u8>| has_file_under(a, d.push(c)) == has_file_under(b, d.push(c)) by {
            lemma_same_paths_same_files(a, b, d.push(c));
        }
        assert forall|e: EntryView| dir_entry_set(a, d).contains(e) <==> dir_entry_set(b, d).contains(
            e,
        ) by {
            if dir_entry_set(a, d).contains(e) {
                let c = choose|c: Seq<u8>|
                    #[trigger] has_file_under(a, d.push(c)) && e == child_entry(a, d, c);
                assert(has_file_under(b, d.push(c)) && e == child_entry(b, d, c));
            }
            if dir_entry_set(b, d).contains(e) {
                let c = choose|c: Seq<u8>|
                    #[trigger] has_file_under(b, d.push(c)) && e == child_entry(b, d, c);
                assert(has_file_under(a, d.push(c)) && e == child_entry(a, d, c));
            }
        }
        assert(dir_entry_set(a, d) =~= dir_entry_set(b, d));
    }
}

/// The trees built from a workspace snapshot do not depend on the order in
/// which its paths are listed: two listings of the same paths give the same
/// root entries, so the same root tree and the same root id.
pub proof fn lemma_build_ignores_path_order(a: Seq<PathView>, b: Seq<PathView>)
    requires
        a.to_set() == b.to_set(),
        paths_consistent(a),
        paths_consistent(b),
    ensures
        dir_entries(a, Seq::empty()) == dir_entries(b, Seq::empty()),
        dir_tree_id(a, Seq::empty()) == dir_tree_id(b, Seq::empty()),
{
    lemma_same_paths_same_dir(a, b, Seq::empty());
}

} // verus!

verus! {

proof fn lemma_to_seq_no_duplicates(s: Set<EntryView>)
    requires
        s.finite(),
    ensures
        s.to_seq().no_duplicates(),
        s.to_seq().to_set() == s,
    decreases s.len(),
{
    s.lemma_to_seq_to_set_id();
    if s.len() > 0 {
        let x = s.choose();
        let rest = s.remove(x);
        lemma_to_seq_no_duplicates(rest);
        assert(!rest.to_seq().contains(x)) by {
            if rest.to_seq().contains(x) {
                assert(rest.to_seq().to_set().contains(x));
            }
        }
        let t = Seq::<EntryView>::empty().push(x) + rest.to_seq();
        assert(s.to_seq() == t);
        assert forall|a: int, b: int| 0 <= a < t.len() && 0 <= b < t.len() && a != b implies t[a]
            != t[b] by {
            if a == 0 {
                assert(t[b] == rest.to_seq()[b - 1]);
            } else if b == 0 {
                assert(t[a] == rest.to_seq()[a - 1]);
            } else {
                assert(t[a] == rest.to_seq()[a - 1]);
                assert(t[b] == rest.to_seq()[b - 1]);
            }
        }
    }
}

/// The entries of a directory are finitely many.
proof fn lemma_dir_entry_set_finite(items: Seq<PathView>, d: Seq<Seq<u8>>)
    ensures
        dir_entry_set(items, d).finite(),
{
    let cands = Seq::new(items.len(), |j: int| child_entry(items, d, items[j].path[d.len() as int]));
    assert forall|e: EntryView| dir_entry_set(items, d).contains(e) implies cands.to_set().contains(
        e,
    ) by {
        let c = choose|c: Seq<u8>| #[trigger] has_file_under(items, d.push(c)) && e == child_entry(items, d, c);
        let i = choose|i: int|
            0 <= i < items.len() && is_file(items[i]) && is_prefix(d.push(c), #[trigger] items[i].path);
        lemma_push_prefix(d, c, items[i].path);
        assert(cands[i] == e);
    }
    assert(dir_entry_set(items, d).subset_of(cands.to_set()));
    vstd::set_lib::lemma_set_subset_finite(cands.to_set(), dir_entry_set(items, d));
}

/// The canonical list of a finite set of entries holds exactly that set.
proof fn lemma_canonical_exists(es: Set<EntryView>)
    requires
        es.finite(),
    ensures
        entries_sorted(canonical(es)),
        canonical(es).no_duplicates(),
        canonical(es).to_set() == es,
{
    lemma_to_seq_no_duplicates(es);
    let le = |a: EntryView, b: EntryView| entry_le(a, b);
    lemma_entry_le_total_ordering();
    es.to_seq().lemma_sort_by_ensures(le);
    let t = es.to_seq().sort_by(le);
    lemma_same_multiset(es.to_seq(), t);
    lemma_canonical(t, es);
}

/// Every file of a snapshot is reachable from the root tree: its blob is
/// listed, under its name and with its mode, in the tree of its directory;
/// and each directory on its path is listed, as a directory entry that
/// refers to the directory's tree, in the tree of its parent.
pub proof fn lemma_files_reachable(items: Seq<PathView>, i: int)
    requires
        paths_consistent(items),
        0 <= i < items.len(),
        is_file(items[i]),
    ensures
        dir_entries(items, items[i].path.drop_last()).contains(
            EntryView {
                name: items[i].path.last(),
                oid: items[i].kind->File_0,
                mode: items[i].kind->File_1,
            },
        ),
        forall|k: int|
            0 <= k < items[i].path.len() - 1 ==> #[trigger] dir_entries(
                items,
                items[i].path.take(k),
            ).contains(
                EntryView {
                    name: items[i].path[k],
                    oid: dir_tree_id(items, items[i].path.take(k + 1)),
                    mode: Mode::Directory,
                },
            ),
{
    let p = items[i].path;
    lemma_max_depth(items);
    assert forall|k: int| 0 <= k < p.len() implies #[trigger] dir_entries(items, p.take(k)).contains(
        child_entry(items, p.take(k), p[k]),
    ) by {
        let q = p.take(k);
        assert(q.push(p[k]) =~= p.take(k + 1));
        assert(is_prefix(q.push(p[k]), p));
        assert(has_file_under(items, q.push(p[k])));
        lemma_dir_entries_unfold(items, q);
        lemma_dir_entry_set_finite(items, q);
        lemma_canonical_exists(dir_entry_set(items, q));
        assert(dir_entry_set(items, q).contains(child_entry(items, q, p[k])));
    }
    let k = p.len() - 1;
    let q = p.take(k);
    assert(q.push(p[k]) =~= p);
    assert(q =~= p.drop_last());
    assert(has_file_at(items, q.push(p[k])));
    lemma_dir_entries_unfold(items, q);
    let j = choose|j: int| 0 <= j < items.len() && is_file(items[j]) && #[trigger] items[j].path == p;
    assert(items[j].kind == items[i].kind);
    assert(dir_entries(items, q).contains(child_entry(items, q, p[k])));
    assert forall|k: int| 0 <= k < p.len() - 1 implies #[trigger] dir_entries(items, p.take(k)).contains(
        EntryView { name: p[k], oid: dir_tree_id(items, p.take(k + 1)), mode: Mode::Directory },
    ) by {
        let q = p.take(k);
        assert(q.push(p[k]) =~= p.take(k + 1));
        lemma_dir_entries_unfold(items, q);
        if has_file_at(items, q.push(p[k])) {
            let j = choose|j: int|
                0 <= j < items.len() && is_file(items[j]) && #[trigger] items[j].path == q.push(p[k]);
            assert(is_prefix(items[j].path, p));
        }
        assert(dir_entries(items, p.take(k)).contains(child_entry(items, p.take(k), p[k])));
    }
}

} // verus!

verus! {

/// A snapshot of one file at the top: the root tree lists that file alone,
/// under its name, with its blob id and mode.
pub proof fn lemma_single_file_root(items: Seq<PathView>)
    requires
        items.len() == 1,
        is_file(items[0]),
        items[0].path.len() == 1,
    ensures
        dir_entries(items, Seq::empty()) == seq![
            EntryView {
                name: items[0].path[0],
                oid: items[0].kind->File_0,
                mode: items[0].kind->File_1,
            },
        ],
{
    let d = Seq::<Seq<u8>>::empty();
    let p = items[0].path;
    let e = EntryView { name: p[0], oid: items[0].kind->File_0, mode: items[0].kind->File_1 };
    lemma_max_depth(items);
    lemma_max_depth_attained(items);
    lemma_dir_entries_unfold(items, d);
    assert(d.push(p[0]) =~= p);
    assert(p.take(1) =~= p);
    assert(has_file_at(items, p));
    assert(has_file_under(items, d.push(p[0])));
    assert forall|x: EntryView| dir_entry_set(items, d).contains(x) <==> x == e by {
        if dir_entry_set(items, d).contains(x) {
            let c = choose|c: Seq<u8>| #[trigger] has_file_under(items, d.push(c)) && x == child_entry(items, d, c);
            lemma_push_prefix(d, c, p);
            assert(d.push(c) =~= p);
        }
        if x == e {
            assert(dir_entry_set(items, d).contains(e));
        }
    }
    let s = seq![e];
    assert(s.to_set() =~= dir_entry_set(items, d)) by {
        assert forall|x: EntryView| s.to_set().contains(x) <==> x == e by {
            if x == e {
                assert(s[0] == e);
            }
        }
    }
    lemma_canonical(s, dir_entry_set(items, d));
}

} // verus!
