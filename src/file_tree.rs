//! The interactive file tree: the grouping of the index tree over interned
//! segment ids, each item carrying its id, its segment's text and the
//! summed size of its group, with the labels that decorate it.

use vstd::prelude::*;
use crate::index_tree::{
    is_index_tree, FileIdx,
    copy_ids, id_depth, id_group, id_keys, ids_sorted, in_id_group, insert_sorted_id,
    lemma_id_group, lemma_keys_have_groups,
};
use crate::record::{file_paths, File};
use crate::segments::{
    intern_all, intern_paths, intern_segs, lemma_intern_segs_bounds, lemma_total_segments_prefix, split_path,
    total_segments, StringInterner,
};

verus! {

/// One item of the interactive file tree.
#[derive(Debug)]
pub struct FileTreeItem {
    /// The interned id of the item's segment.
    pub identifier: usize,
    /// The segment's text.
    pub name: String,
    /// The summed size of the records below.
    pub size: u64,
    pub children: Vec<FileTreeItem>,
}

/// The entries of a file-tree build as values: (size, downloaded bytes),
/// and segment ids.
pub open spec fn sized_entries(xs: Seq<(u64, u64, Vec<u64>)>) -> Seq<((u64, u64), Seq<u64>)> {
    xs.map_values(|e: (u64, u64, Vec<u64>)| ((e.0, e.1), e.2@))
}

/// The summed sizes of the entries.
pub open spec fn id_size_sum(xs: Seq<((u64, u64), Seq<u64>)>) -> int
    decreases xs.len(),
{
    if xs.len() == 0 {
        0
    } else {
        id_size_sum(xs.drop_last()) + xs.last().0.0
    }
}

/// Every segment id of the entries names a segment of a table of `n`.
pub open spec fn ids_known(xs: Seq<((u64, u64), Seq<u64>)>, n: int) -> bool {
    forall|i: int, j: int|
        0 <= i < xs.len() && 0 <= j < xs[i].1.len() ==> 1 <= #[trigger] xs[i].1[j] <= n
}

/// `items` is the file tree that the entries `xs` give at depth `level`,
/// with segment texts from `names` (id `k` naming `names[k - 1]`): one item
/// per distinct id, ascending, with the summed size of its group; an item
/// has children only when its group has more than one entry.
pub open spec fn is_file_tree(
    items: Seq<FileTreeItem>,
    level: int,
    xs: Seq<((u64, u64), Seq<u64>)>,
    names: Seq<Seq<char>>,
) -> bool
    decreases items,
{
    let ks = id_keys(xs, level);
    &&& items.len() == ks.len()
    &&& forall|i: int|
        #![trigger items[i]]
        0 <= i < items.len() ==> {
            let g = id_group(xs, level, ks[i]);
            &&& items[i].identifier == ks[i] as usize
            &&& items[i].name@ == names[ks[i] - 1]
            &&& items[i].size == id_size_sum(g)
            &&& if g.len() > 1 {
                is_file_tree(items[i].children@, level + 1, g, names)
            } else {
                items[i].children@.len() == 0
            }
        }
}

proof fn lemma_group_bounds(xs: Seq<((u64, u64), Seq<u64>)>, level: int, key: u64, n: int)
    ensures
        ids_known(xs, n) ==> ids_known(id_group(xs, level, key), n),
        id_size_sum(id_group(xs, level, key)) <= id_size_sum(xs),
    decreases xs.len(),
{
    if xs.len() > 0 {
        let pre = xs.drop_last();
        if ids_known(xs, n) {
            assert forall|i: int, j: int| 0 <= i < pre.len() && 0 <= j < pre[i].1.len() implies 1
                <= #[trigger] pre[i].1[j] <= n by {
                assert(pre[i] == xs[i]);
            }
        }
        lemma_group_bounds(pre, level, key, n);
        let g = id_group(pre, level, key);
        if in_id_group(xs.last(), level, key) {
            let g2 = g.push(xs.last());
            assert(g2.drop_last() == g);
            if ids_known(xs, n) {
                assert forall|i: int, j: int| 0 <= i < g2.len() && 0 <= j < g2[i].1.len() implies 1
                    <= #[trigger] g2[i].1[j] <= n by {
                    if i < g.len() {
                        assert(g2[i] == g[i]);
                    } else {
                        assert(g2[i] == xs[xs.len() - 1]);
                    }
                }
            }
        }
    }
}

proof fn lemma_size_prefix(xs: Seq<((u64, u64), Seq<u64>)>, i: int)
    requires
        0 <= i <= xs.len(),
    ensures
        id_size_sum(xs.take(i)) <= id_size_sum(xs),
    decreases xs.len(),
{
    if i < xs.len() {
        lemma_size_prefix(xs.drop_last(), i);
        assert(xs.drop_last().take(i) == xs.take(i));
    } else {
        assert(xs.take(i) == xs);
    }
}

/// The distinct ids at `level`, ascending.
fn level_ids_sized(level: usize, xs: &Vec<(u64, u64, Vec<u64>)>) -> (r: Vec<u64>)
    ensures
        r@ == id_keys(sized_entries(xs@), level as int),
        ids_sorted(r@),
{
    let ghost ex = sized_entries(xs@);
    let mut ks: Vec<u64> = Vec::new();
    let mut i: usize = 0;
    while i < xs.len()
        invariant
            ex == sized_entries(xs@),
            i <= xs@.len(),
            ks@ == id_keys(ex.take(i as int), level as int),
            ids_sorted(ks@),
        decreases xs@.len() - i,
    {
        assert(ex.take(i + 1).drop_last() == ex.take(i as int));
        assert(ex.take(i + 1).last() == ex[i as int]);
        if xs[i].2.len() > level {
            insert_sorted_id(&mut ks, xs[i].2[level]);
        }
        i = i + 1;
    }
    assert(ex.take(xs@.len() as int) == ex);
    ks
}

/// The entries whose segment at `level` is `key`, in their order, and
/// their summed size.
fn collect_sized_group(level: usize, xs: &Vec<(u64, u64, Vec<u64>)>, key: u64) -> (r: (
    Vec<(u64, u64, Vec<u64>)>,
    u64,
))
    requires
        id_size_sum(sized_entries(xs@)) <= u64::MAX,
    ensures
        sized_entries(r.0@) == id_group(sized_entries(xs@), level as int, key),
        r.1 == id_size_sum(id_group(sized_entries(xs@), level as int, key)),
{
    let ghost ex = sized_entries(xs@);
    let mut r: Vec<(u64, u64, Vec<u64>)> = Vec::new();
    let mut size: u64 = 0;
    let mut i: usize = 0;
    while i < xs.len()
        invariant
            ex == sized_entries(xs@),
            id_size_sum(ex) <= u64::MAX,
            i <= xs@.len(),
            sized_entries(r@) == id_group(ex.take(i as int), level as int, key),
            size == id_size_sum(id_group(ex.take(i as int), level as int, key)),
        decreases xs@.len() - i,
    {
        let ghost pre = ex.take(i as int);
        let ghost cur = ex.take(i + 1);
        assert(cur.drop_last() == pre);
        assert(cur.last() == ex[i as int]);
        proof {
            lemma_group_bounds(cur, level as int, key, 0);
            lemma_size_prefix(ex, i + 1);
        }
        let x = &xs[i];
        if x.2.len() > level && x.2[level] == key {
            let ghost g = id_group(pre, level as int, key);
            assert(id_group(cur, level as int, key) == g.push(ex[i as int]));
            assert(g.push(ex[i as int]).drop_last() == g);
            let ids = copy_ids(&x.2);
            size = size + x.0;
            r.push((x.0, x.1, ids));
            assert(sized_entries(r@) =~= g.push(ex[i as int]));
        }
        i = i + 1;
    }
    assert(ex.take(xs@.len() as int) == ex);
    (r, size)
}

/// The text of the segment with id `key`, which the table holds.
fn resolve_name(strings: &StringInterner, key: u64) -> (r: String)
    requires
        1 <= key <= strings@.len(),
    ensures
        r@ == strings@[key - 1],
{
    match strings.resolve(key) {
        Some(name) => name,
        None => {
            assert(false);
            String::new()
        },
    }
}

/// Builds the file tree of the entries `xs` (size, downloaded bytes,
/// segment ids) at depth `level`, with segment texts from `strings`.
pub fn do_build_file_tree(level: usize, xs: Vec<(u64, u64, Vec<u64>)>, strings: &StringInterner) -> (r:
    Vec<FileTreeItem>)
    requires
        ids_known(sized_entries(xs@), strings@.len() as int),
        id_size_sum(sized_entries(xs@)) <= u64::MAX,
    ensures
        is_file_tree(r@, level as int, sized_entries(xs@), strings@),
    decreases id_depth(sized_entries(xs@)) - level,
{
    let ghost ex = sized_entries(xs@);
    let ks = level_ids_sized(level, &xs);
    let mut ns: Vec<FileTreeItem> = Vec::new();
    let mut j: usize = 0;
    while j < ks.len()
        invariant
            ex == sized_entries(xs@),
            ids_known(ex, strings@.len() as int),
            id_size_sum(ex) <= u64::MAX,
            ks@ == id_keys(ex, level as int),
            j <= ks@.len(),
            ns@.len() == j,
            forall|i: int|
                #![trigger ns@[i]]
                0 <= i < j ==> {
                    let g = id_group(ex, level as int, ks@[i]);
                    &&& ns@[i].identifier == ks@[i] as usize
                    &&& ns@[i].name@ == strings@[ks@[i] - 1]
                    &&& ns@[i].size == id_size_sum(g)
                    &&& if g.len() > 1 {
                        is_file_tree(ns@[i].children@, level + 1, g, strings@)
                    } else {
                        ns@[i].children@.len() == 0
                    }
                },
        decreases ks@.len() - j,
    {
        let key = ks[j];
        let (group, size) = collect_sized_group(level, &xs, key);
        let ghost g = id_group(ex, level as int, key);
        proof {
            lemma_id_group(ex, level as int, key);
            lemma_keys_have_groups(ex, level as int, j as int);
            lemma_group_bounds(ex, level as int, key, strings@.len() as int);
            assert(in_id_group(g[0], level as int, key));
            assert(1 <= g[0].1[level as int] <= strings@.len());
        }
        let name = resolve_name(strings, key);
        let children = if group.len() > 1 {
            assert(group@[0].2.len() > level);
            do_build_file_tree(level + 1, group, strings)
        } else {
            Vec::new()
        };
        ns.push(FileTreeItem { identifier: key as usize, name, size, children });
        j = j + 1;
    }
    ns
}

/// The entries of a file-tree build from `files`, and the table of segment
/// texts, after interning each record's segments in turn.
pub open spec fn intern_files(files: Seq<File>) -> (Seq<Seq<char>>, Seq<((u64, u64), Seq<u64>)>)
    decreases files.len(),
{
    if files.len() == 0 {
        (Seq::empty(), Seq::empty())
    } else {
        let (n1, es) = intern_files(files.drop_last());
        let f = files.last();
        let (n2, ids) = intern_segs(n1, crate::segments::split_segments(f.name@));
        (n2, es.push(((f.length, f.bytes_completed), ids)))
    }
}

/// Builds the file tree of `files`: segments interned as ids in order of
/// first appearance, grouped from the roots.
pub fn build_file_tree(files: &[File]) -> (r: Vec<FileTreeItem>)
    requires
        total_segments(file_paths(files@)) < u64::MAX,
        id_size_sum(intern_files(files@).1) <= u64::MAX,
    ensures
        is_file_tree(r@, 0, intern_files(files@).1, intern_files(files@).0),
{
    let ghost paths = file_paths(files@);
    let mut table = StringInterner::new();
    let mut xs: Vec<(u64, u64, Vec<u64>)> = Vec::new();
    let mut i: usize = 0;
    while i < files.len()
        invariant
            paths == file_paths(files@),
            i <= files@.len(),
            table.wf(),
            total_segments(paths) < u64::MAX,
            table@.len() <= total_segments(paths.take(i as int)),
            (table@, sized_entries(xs@)) == intern_files(files@.take(i as int)),
            ids_known(sized_entries(xs@), table@.len() as int),
        decreases files@.len() - i,
    {
        let f = &files[i];
        let segs = split_path(f.name.as_str());
        assert(paths.take(i + 1).drop_last() == paths.take(i as int));
        assert(paths.take(i + 1).last() == files@[i as int].name@);
        assert(files@.take(i + 1).drop_last() == files@.take(i as int));
        assert(files@.take(i + 1).last() == files@[i as int]);
        proof {
            lemma_total_segments_prefix(paths, i + 1);
            lemma_intern_segs_bounds(table@, crate::segments::views(segs@));
        }
        let ghost before = sized_entries(xs@);
        let ids = intern_all(&mut table, &segs);
        xs.push((f.length, f.bytes_completed, ids));
        assert(sized_entries(xs@) =~= before.push(((f.length, f.bytes_completed), ids@)));
        assert(sized_entries(xs@) == intern_files(files@.take(i + 1)).1);
        assert forall|a: int, b: int|
            0 <= a < sized_entries(xs@).len() && 0 <= b < sized_entries(xs@)[a].1.len() implies 1
                <= #[trigger] sized_entries(xs@)[a].1[b] <= table@.len() by {
            if a < before.len() {
                assert(sized_entries(xs@)[a] == before[a]);
            }
        }
        i = i + 1;
    }
    assert(files@.take(files@.len() as int) == files@);
    do_build_file_tree(0, xs, &table)
}

/// What follows the last `.` of a name, if it has one.
pub open spec fn extension_of(s: Seq<char>) -> Option<Seq<char>>
    decreases s.len(),
{
    if s.len() == 0 {
        None
    } else if s.last() == '.' {
        Some(Seq::empty())
    } else {
        match extension_of(s.drop_last()) {
            Some(e) => Some(e.push(s.last())),
            None => None,
        }
    }
}

proof fn lemma_extension_at(s: Seq<char>, k: int)
    requires
        -1 <= k < s.len(),
        k >= 0 ==> s[k] == '.',
        forall|j: int| k < j < s.len() ==> s[j] != '.',
    ensures
        extension_of(s) == if k >= 0 {
            Some(s.subrange(k + 1, s.len() as int))
        } else {
            None::<Seq<char>>
        },
    decreases s.len(),
{
    if s.len() > 0 && k < s.len() - 1 {
        let pre = s.drop_last();
        lemma_extension_at(pre, k);
        if k >= 0 {
            assert(s.subrange(k + 1, s.len() as int) == s.subrange(k + 1, pre.len() as int).push(
                s.last(),
            ));
            assert(pre.subrange(k + 1, pre.len() as int) == s.subrange(k + 1, pre.len() as int));
        }
    } else if s.len() > 0 {
        assert(s.subrange(k + 1, s.len() as int) =~= Seq::<char>::empty());
    }
}

/// The extension of a file name: what follows its last `.`, if any.
pub fn file_extension(name: &str) -> (r: Option<String>)
    ensures
        r is Some <==> extension_of(name@) is Some,
        r is Some ==> r->0@ == extension_of(name@)->0,
{
    let n = name.unicode_len();
    let mut i: usize = n;
    while i > 0
        invariant
            n == name@.len(),
            i <= n,
            forall|j: int| i <= j < n ==> name@[j] != '.',
        decreases i,
    {
        if name.get_char(i - 1) == '.' {
            proof {
                lemma_extension_at(name@, i - 1);
            }
            return Some(name.substring_char(i, n).to_owned());
        }
        i = i - 1;
    }
    proof {
        lemma_extension_at(name@, -1);
    }
    None
}

/// The label of a tree item: the icon and a space if there is one, the
/// name, ` - ` and the size text.
pub open spec fn label_text(icon: Option<Seq<char>>, name: Seq<char>, size_text: Seq<char>) -> Seq<
    char,
> {
    match icon {
        Some(i) => i + seq![' '] + name + seq![' ', '-', ' '] + size_text,
        None => name + seq![' ', '-', ' '] + size_text,
    }
}

/// Builds the label of a tree item from its optional icon, its name and the
/// text of its size.
pub fn file_label(icon: Option<&str>, name: &str, size_text: &str) -> (r: String)
    ensures
        r@ == label_text(
            match icon {
                Some(i) => Some(i@),
                None => None,
            },
            name@,
            size_text@,
        ),
{
    let sp = " ";
    let dash = " - ";
    proof {
        reveal_strlit(" ");
        reveal_strlit(" - ");
    }
    let mut s = String::new();
    match icon {
        Some(i) => {
            s.append(i);
            s.append(sp);
        },
        None => {},
    }
    s.append(name);
    s.append(dash);
    s.append(size_text);
    assert(s@ =~= label_text(
        match icon {
            Some(i) => Some(i@),
            None => None,
        },
        name@,
        size_text@,
    ));
    s
}

/// Two lists of entries with the same segment ids, entry by entry.
pub open spec fn same_segments<P, Q>(xs: Seq<(P, Seq<u64>)>, ys: Seq<(Q, Seq<u64>)>) -> bool {
    &&& xs.len() == ys.len()
    &&& forall|i: int| 0 <= i < xs.len() ==> #[trigger] xs[i].1 == ys[i].1
}

/// An index tree and a file tree with the same number of siblings at every
/// place, so that a tree path means the same node in both.
pub open spec fn same_shape(a: Seq<FileIdx>, b: Seq<FileTreeItem>) -> bool
    decreases a,
{
    &&& a.len() == b.len()
    &&& forall|i: int| 0 <= i < a.len() ==> same_shape(#[trigger] a[i].children@, b[i].children@)
}

proof fn lemma_same_segments_grouping<P, Q>(
    xs: Seq<(P, Seq<u64>)>,
    ys: Seq<(Q, Seq<u64>)>,
    level: int,
    key: u64,
)
    requires
        same_segments(xs, ys),
    ensures
        id_keys(xs, level) == id_keys(ys, level),
        same_segments(id_group(xs, level, key), id_group(ys, level, key)),
    decreases xs.len(),
{
    if xs.len() > 0 {
        let (px, py) = (xs.drop_last(), ys.drop_last());
        assert forall|i: int| 0 <= i < px.len() implies #[trigger] px[i].1 == py[i].1 by {
            assert(px[i] == xs[i] && py[i] == ys[i]);
        }
        lemma_same_segments_grouping(px, py, level, key);
        assert(xs.last().1 == ys.last().1);
        let (gx, gy) = (id_group(px, level, key), id_group(py, level, key));
        if in_id_group(xs.last(), level, key) {
            let (hx, hy) = (gx.push(xs.last()), gy.push(ys.last()));
            assert forall|i: int| 0 <= i < hx.len() implies #[trigger] hx[i].1 == hy[i].1 by {
                if i < gx.len() {
                    assert(hx[i] == gx[i] && hy[i] == gy[i]);
                }
            }
        }
    }
}

proof fn lemma_trees_same_shape(
    a: Seq<FileIdx>,
    b: Seq<FileTreeItem>,
    level: int,
    xs: Seq<(usize, Seq<u64>)>,
    ys: Seq<((u64, u64), Seq<u64>)>,
    names: Seq<Seq<char>>,
)
    requires
        is_index_tree(a, level, xs),
        is_file_tree(b, level, ys, names),
        same_segments(xs, ys),
    ensures
        same_shape(a, b),
    decreases a,
{
    let ks = id_keys(xs, level);
    lemma_same_segments_grouping(xs, ys, level, 0);
    assert forall|i: int| 0 <= i < a.len() implies same_shape(#[trigger] a[i].children@, b[i].children@) by {
        lemma_same_segments_grouping(xs, ys, level, ks[i]);
        assert(b[i] == b[i]);
        let gx = id_group(xs, level, ks[i]);
        let gy = id_group(ys, level, ks[i]);
        if gx.len() > 1 {
            lemma_trees_same_shape(a[i].children@, b[i].children@, level + 1, gx, gy, names);
        }
    }
}

proof fn lemma_interning_agrees(files: Seq<File>)
    ensures
        intern_paths(file_paths(files)).0 == intern_files(files).0,
        same_segments(intern_paths(file_paths(files)).1, intern_files(files).1),
    decreases files.len(),
{
    if files.len() > 0 {
        let pre = files.drop_last();
        assert(file_paths(files).drop_last() == file_paths(pre));
        lemma_interning_agrees(pre);
        let (xa, xb) = (intern_paths(file_paths(pre)).1, intern_files(pre).1);
        let (ya, yb) = (intern_paths(file_paths(files)).1, intern_files(files).1);
        assert forall|i: int| 0 <= i < ya.len() implies #[trigger] ya[i].1 == yb[i].1 by {
            if i < xa.len() {
                assert(ya[i] == xa[i] && yb[i] == xb[i]);
            }
        }
    }
}

/// The index tree and the file tree of the same records have the same
/// shape: a tree path recorded on the file tree names the node at the same
/// ranks in the index tree, which `find_file_position` resolves.
pub proof fn lemma_index_matches_file_tree(files: Seq<File>, index: Seq<FileIdx>, items: Seq<FileTreeItem>)
    requires
        is_index_tree(index, 0, intern_paths(file_paths(files)).1),
        is_file_tree(items, 0, intern_files(files).1, intern_files(files).0),
    ensures
        same_shape(index, items),
{
    lemma_interning_agrees(files);
    lemma_trees_same_shape(
        index,
        items,
        0,
        intern_paths(file_paths(files)).1,
        intern_files(files).1,
        intern_files(files).0,
    );
}

} // verus!
