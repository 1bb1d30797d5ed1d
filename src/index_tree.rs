//! The index tree: the shape of the display tree over interned segment ids,
//! each node holding the position in the flat list of the record it stands
//! for, and the walk that maps a tree path back to that position.

use vstd::prelude::*;
use crate::record::{file_paths, File};
use crate::segments::{
    intern_all, intern_paths, lemma_total_segments_prefix, split_path, total_segments,
    StringInterner,
};

verus! {

/// One node of an index tree: `idx` is the position, in the flat list, of
/// the first record of the node's group.
#[derive(Debug)]
pub struct FileIdx {
    pub idx: usize,
    pub children: Vec<FileIdx>,
}

/// The entries of an index build as values: each record's position in the
/// flat list, and the ids of its path segments.
pub open spec fn id_entries(xs: Seq<(usize, Vec<u64>)>) -> Seq<(usize, Seq<u64>)> {
    xs.map_values(|e: (usize, Vec<u64>)| (e.0, e.1@))
}

/// The entry has a segment at `level`, and that segment is `key`.
pub open spec fn in_id_group<P>(e: (P, Seq<u64>), level: int, key: u64) -> bool {
    e.1.len() > level && e.1[level] == key
}

/// The entries, in their order, whose segment at `level` is `key`.
pub open spec fn id_group<P>(xs: Seq<(P, Seq<u64>)>, level: int, key: u64) -> Seq<(P, Seq<u64>)>
    decreases xs.len(),
{
    if xs.len() == 0 {
        xs
    } else {
        let g = id_group(xs.drop_last(), level, key);
        if in_id_group(xs.last(), level, key) {
            g.push(xs.last())
        } else {
            g
        }
    }
}

/// `ks` strictly ascending.
pub open spec fn ids_sorted(ks: Seq<u64>) -> bool {
    forall|i: int, j: int| 0 <= i < j < ks.len() ==> ks[i] < ks[j]
}

/// `ks` with `k` put in its place, unless `ks` holds it already.
pub open spec fn insert_id(ks: Seq<u64>, k: u64) -> Seq<u64>
    decreases ks.len(),
{
    if ks.len() == 0 {
        seq![k]
    } else if ks[0] == k {
        ks
    } else if k < ks[0] {
        seq![k] + ks
    } else {
        seq![ks[0]] + insert_id(ks.drop_first(), k)
    }
}

/// The distinct segment ids found at `level`, ascending.
pub open spec fn id_keys<P>(xs: Seq<(P, Seq<u64>)>, level: int) -> Seq<u64>
    decreases xs.len(),
{
    if xs.len() == 0 {
        Seq::empty()
    } else {
        let ks = id_keys(xs.drop_last(), level);
        if xs.last().1.len() > level {
            insert_id(ks, xs.last().1[level])
        } else {
            ks
        }
    }
}

/// `nodes` is the index tree that the entries `xs` give at depth `level`:
/// one node per distinct id, in ascending order; each holds the position of
/// the first entry of its group, and has children only when the group has
/// more than one entry.
pub open spec fn is_index_tree(nodes: Seq<FileIdx>, level: int, xs: Seq<(usize, Seq<u64>)>) -> bool
    decreases nodes,
{
    let ks = id_keys(xs, level);
    &&& nodes.len() == ks.len()
    &&& forall|i: int|
        #![trigger nodes[i]]
        0 <= i < nodes.len() ==> {
            let g = id_group(xs, level, ks[i]);
            &&& nodes[i].idx == g[0].0
            &&& if g.len() > 1 {
                is_index_tree(nodes[i].children@, level + 1, g)
            } else {
                nodes[i].children@.len() == 0
            }
        }
}

/// The largest number of segments among the entries.
pub open spec fn id_depth<P>(xs: Seq<(P, Seq<u64>)>) -> int
    decreases xs.len(),
{
    if xs.len() == 0 {
        0
    } else {
        let d = id_depth(xs.drop_last());
        if xs.last().1.len() > d {
            xs.last().1.len() as int
        } else {
            d
        }
    }
}

pub proof fn lemma_id_group<P>(xs: Seq<(P, Seq<u64>)>, level: int, key: u64)
    ensures
        forall|j: int|
            0 <= j < id_group(xs, level, key).len() ==> #[trigger] in_id_group(
                id_group(xs, level, key)[j],
                level,
                key,
            ),
        id_depth(id_group(xs, level, key)) <= id_depth(xs),
        id_group(xs, level, key).len() > 0 ==> id_depth(id_group(xs, level, key)) > level,
        id_group(xs, level, key).len() <= xs.len(),
    decreases xs.len(),
{
    if xs.len() > 0 {
        lemma_id_group(xs.drop_last(), level, key);
        let g = id_group(xs.drop_last(), level, key);
        if in_id_group(xs.last(), level, key) {
            assert(g.push(xs.last()).drop_last() == g);
        }
    }
}

/// Where `k` belongs in the ascending `ks`: `insert_id` either finds it at
/// `i` or puts it there.
proof fn lemma_insert_id_at(ks: Seq<u64>, k: u64, i: int)
    requires
        ids_sorted(ks),
        0 <= i <= ks.len(),
        forall|j: int| 0 <= j < i ==> ks[j] < k,
        i < ks.len() ==> k <= ks[i],
    ensures
        insert_id(ks, k) == if i < ks.len() && ks[i] == k {
            ks
        } else {
            ks.insert(i, k)
        },
    decreases i,
{
    if ks.len() == 0 {
        assert(seq![k] =~= ks.insert(0, k));
    } else if i == 0 {
        if ks[0] != k {
            assert(seq![k] + ks =~= ks.insert(0, k));
        }
    } else {
        let rest = ks.drop_first();
        lemma_insert_id_at(rest, k, i - 1);
        if i < ks.len() && ks[i] == k {
            assert(seq![ks[0]] + rest =~= ks);
        } else {
            assert(seq![ks[0]] + rest.insert(i - 1, k) =~= ks.insert(i, k));
        }
    }
}

pub proof fn lemma_insert_id_sorted(ks: Seq<u64>, k: u64)
    requires
        ids_sorted(ks),
    ensures
        ids_sorted(insert_id(ks, k)),
        forall|x: u64| #[trigger] insert_id(ks, k).contains(x) <==> ks.contains(x) || x == k,
    decreases ks.len(),
{
    if ks.len() > 0 && ks[0] != k {
        if k < ks[0] {
            let r = seq![k] + ks;
            assert forall|x: u64| #[trigger] r.contains(x) <==> ks.contains(x) || x == k by {
                if r.contains(x) {
                    let j = choose|j: int| 0 <= j < r.len() && r[j] == x;
                    if j > 0 {
                        assert(ks[j - 1] == x);
                    }
                }
                if ks.contains(x) {
                    let j = choose|j: int| 0 <= j < ks.len() && ks[j] == x;
                    assert(r[j + 1] == x);
                }
                if x == k {
                    assert(r[0] == x);
                }
            }
        } else {
            let rest = ks.drop_first();
            lemma_insert_id_sorted(rest, k);
            let t = insert_id(rest, k);
            let r = seq![ks[0]] + t;
            assert forall|j: int| 0 <= j < t.len() implies ks[0] < #[trigger] t[j] by {
                assert(t.contains(t[j]));
                if t[j] != k {
                    let m = choose|m: int| 0 <= m < rest.len() && rest[m] == t[j];
                    assert(ks[m + 1] == t[j]);
                }
            }
            assert forall|x: u64| #[trigger] r.contains(x) <==> ks.contains(x) || x == k by {
                if r.contains(x) {
                    let j = choose|j: int| 0 <= j < r.len() && r[j] == x;
                    if j > 0 {
                        assert(t[j - 1] == x);
                        assert(t.contains(x));
                        if x != k {
                            let m = choose|m: int| 0 <= m < rest.len() && rest[m] == x;
                            assert(ks[m + 1] == x);
                        }
                    }
                }
                if ks.contains(x) {
                    let j = choose|j: int| 0 <= j < ks.len() && ks[j] == x;
                    if j > 0 {
                        assert(rest[j - 1] == x);
                        assert(rest.contains(x));
                        assert(t.contains(x));
                        let m = choose|m: int| 0 <= m < t.len() && t[m] == x;
                        assert(r[m + 1] == x);
                    } else {
                        assert(r[0] == x);
                    }
                }
                if x == k {
                    assert(t.contains(k));
                    let m = choose|m: int| 0 <= m < t.len() && t[m] == k;
                    assert(r[m + 1] == x);
                }
            }
        }
    } else if ks.len() > 0 {
        assert(ks[0] == k);
    } else {
        assert(seq![k][0] == k);
    }
}

/// Puts `k` in its place in the ascending `ks`, unless it is there already.
pub(crate) fn insert_sorted_id(ks: &mut Vec<u64>, k: u64)
    requires
        ids_sorted(old(ks)@),
    ensures
        final(ks)@ == insert_id(old(ks)@, k),
        ids_sorted(final(ks)@),
{
    let n = ks.len();
    let mut i: usize = 0;
    while i < n && ks[i] < k
        invariant
            n == ks@.len(),
            i <= n,
            forall|j: int| 0 <= j < i ==> ks@[j] < k,
        decreases n - i,
    {
        i = i + 1;
    }
    proof {
        lemma_insert_id_at(ks@, k, i as int);
        lemma_insert_id_sorted(ks@, k);
    }
    if i < n && ks[i] == k {
        return;
    }
    ks.insert(i, k);
}

/// The distinct ids at `level`, ascending.
fn level_ids(level: usize, xs: &Vec<(usize, Vec<u64>)>) -> (r: Vec<u64>)
    ensures
        r@ == id_keys(id_entries(xs@), level as int),
        ids_sorted(r@),
{
    let ghost ex = id_entries(xs@);
    let mut ks: Vec<u64> = Vec::new();
    let mut i: usize = 0;
    while i < xs.len()
        invariant
            ex == id_entries(xs@),
            i <= xs@.len(),
            ks@ == id_keys(ex.take(i as int), level as int),
            ids_sorted(ks@),
        decreases xs@.len() - i,
    {
        assert(ex.take(i + 1).drop_last() == ex.take(i as int));
        assert(ex.take(i + 1).last() == ex[i as int]);
        if xs[i].1.len() > level {
            insert_sorted_id(&mut ks, xs[i].1[level]);
        }
        i = i + 1;
    }
    assert(ex.take(xs@.len() as int) == ex);
    ks
}

/// A copy of a list of ids.
pub(crate) fn copy_ids(v: &Vec<u64>) -> (r: Vec<u64>)
    ensures
        r@ == v@,
{
    let mut r: Vec<u64> = Vec::new();
    let mut i: usize = 0;
    while i < v.len()
        invariant
            i <= v@.len(),
            r@ == v@.take(i as int),
        decreases v@.len() - i,
    {
        r.push(v[i]);
        assert(v@.take(i + 1) == v@.take(i as int).push(v@[i as int]));
        i = i + 1;
    }
    assert(v@.take(v@.len() as int) == v@);
    r
}

/// The entries whose segment at `level` is `key`, in their order.
fn collect_id_group(level: usize, xs: &Vec<(usize, Vec<u64>)>, key: u64) -> (r: Vec<(usize, Vec<u64>)>)
    ensures
        id_entries(r@) == id_group(id_entries(xs@), level as int, key),
{
    let ghost ex = id_entries(xs@);
    let mut r: Vec<(usize, Vec<u64>)> = Vec::new();
    let mut i: usize = 0;
    while i < xs.len()
        invariant
            ex == id_entries(xs@),
            i <= xs@.len(),
            id_entries(r@) == id_group(ex.take(i as int), level as int, key),
        decreases xs@.len() - i,
    {
        assert(ex.take(i + 1).drop_last() == ex.take(i as int));
        assert(ex.take(i + 1).last() == ex[i as int]);
        let x = &xs[i];
        if x.1.len() > level && x.1[level] == key {
            let ids = copy_ids(&x.1);
            r.push((x.0, ids));
            assert(id_entries(r@) =~= id_group(ex.take(i as int), level as int, key).push(ex[i as int]));
        }
        i = i + 1;
    }
    assert(ex.take(xs@.len() as int) == ex);
    r
}

/// Builds the index tree of the entries `xs` (record position, segment ids)
/// at depth `level`: siblings in ascending id order, each holding the
/// position of the first entry of its group, a group of one entry ending
/// its branch.
pub fn do_build_file_tree_index(level: usize, xs: Vec<(usize, Vec<u64>)>) -> (r: Vec<FileIdx>)
    ensures
        is_index_tree(r@, level as int, id_entries(xs@)),
    decreases id_depth(id_entries(xs@)) - level,
{
    let ghost ex = id_entries(xs@);
    let ks = level_ids(level, &xs);
    let mut ns: Vec<FileIdx> = Vec::new();
    let mut j: usize = 0;
    while j < ks.len()
        invariant
            ex == id_entries(xs@),
            ks@ == id_keys(ex, level as int),
            j <= ks@.len(),
            ns@.len() == j,
            forall|i: int|
                #![trigger ns@[i]]
                0 <= i < j ==> {
                    let g = id_group(ex, level as int, ks@[i]);
                    &&& ns@[i].idx == g[0].0
                    &&& if g.len() > 1 {
                        is_index_tree(ns@[i].children@, level + 1, g)
                    } else {
                        ns@[i].children@.len() == 0
                    }
                },
        decreases ks@.len() - j,
    {
        let key = ks[j];
        let group = collect_id_group(level, &xs, key);
        let ghost g = id_group(ex, level as int, key);
        proof {
            lemma_id_group(ex, level as int, key);
            lemma_keys_have_groups(ex, level as int, j as int);
        }
        assert(group@[0].0 == id_entries(group@)[0].0);
        let idx = group[0].0;
        let children = if group.len() > 1 {
            assert(in_id_group(g[0], level as int, key));
            assert(group@[0].1.len() > level);
            do_build_file_tree_index(level + 1, group)
        } else {
            Vec::new()
        };
        ns.push(FileIdx { idx, children });
        j = j + 1;
    }
    ns
}

/// Every id of `id_keys` has a non-empty group.
pub proof fn lemma_keys_have_groups<P>(xs: Seq<(P, Seq<u64>)>, level: int, i: int)
    requires
        0 <= i < id_keys(xs, level).len(),
    ensures
        id_group(xs, level, id_keys(xs, level)[i]).len() > 0,
{
    lemma_id_keys_members(xs, level);
    let k = id_keys(xs, level)[i];
    assert(id_keys(xs, level).contains(k));
    lemma_group_nonempty(xs, level, k);
}

proof fn lemma_group_nonempty<P>(xs: Seq<(P, Seq<u64>)>, level: int, k: u64)
    requires
        exists|j: int| 0 <= j < xs.len() && #[trigger] in_id_group(xs[j], level, k),
    ensures
        id_group(xs, level, k).len() > 0,
    decreases xs.len(),
{
    if !in_id_group(xs.last(), level, k) {
        let j = choose|j: int| 0 <= j < xs.len() && #[trigger] in_id_group(xs[j], level, k);
        assert(xs.drop_last()[j] == xs[j]);
        lemma_group_nonempty(xs.drop_last(), level, k);
    }
}

/// The ids of `id_keys` are exactly those found at `level`, ascending.
pub proof fn lemma_id_keys_members<P>(xs: Seq<(P, Seq<u64>)>, level: int)
    ensures
        ids_sorted(id_keys(xs, level)),
        forall|k: u64|
            #[trigger] id_keys(xs, level).contains(k) <==> exists|j: int|
                0 <= j < xs.len() && #[trigger] in_id_group(xs[j], level, k),
    decreases xs.len(),
{
    if xs.len() > 0 {
        let pre = xs.drop_last();
        lemma_id_keys_members(pre, level);
        let ks = id_keys(pre, level);
        if xs.last().1.len() > level {
            lemma_insert_id_sorted(ks, xs.last().1[level]);
        }
        assert forall|k: u64|
            #[trigger] id_keys(xs, level).contains(k) <==> exists|j: int|
                0 <= j < xs.len() && #[trigger] in_id_group(xs[j], level, k) by {
            if exists|j: int| 0 <= j < xs.len() && #[trigger] in_id_group(xs[j], level, k) {
                let j = choose|j: int| 0 <= j < xs.len() && #[trigger] in_id_group(xs[j], level, k);
                if j < xs.len() - 1 {
                    assert(pre[j] == xs[j]);
                }
            }
            if exists|j: int| 0 <= j < pre.len() && #[trigger] in_id_group(pre[j], level, k) {
                let j = choose|j: int| 0 <= j < pre.len() && #[trigger] in_id_group(pre[j], level, k);
                assert(xs[j] == pre[j]);
            }
            if id_keys(xs, level).contains(k) && !ks.contains(k) {
                assert(in_id_group(xs[xs.len() - 1], level, k));
            }
        }
    }
}

/// The position that the tree path `path` leads to: each element is a rank
/// among siblings, from the roots `tree` down; `None` where a rank is out of
/// range or the path is empty.
pub open spec fn walk(path: Seq<usize>, tree: Seq<FileIdx>) -> Option<usize>
    decreases path.len(),
{
    if path.len() == 0 || path[0] >= tree.len() {
        None
    } else if path.len() == 1 {
        Some(tree[path[0] as int].idx)
    } else {
        walk(path.drop_first(), tree[path[0] as int].children@)
    }
}

/// Maps a tree path (ranks among siblings, from the roots down) to the
/// position in the flat list of the record that the node reached stands for.
pub fn find_file_position(path: &[usize], tree: &[FileIdx]) -> (r: Option<usize>)
    ensures
        r == walk(path@, tree@),
{
    let n = path.len();
    if n == 0 {
        return None;
    }
    let mut cur: &[FileIdx] = tree;
    let mut k: usize = 0;
    assert(path@.subrange(0, n as int) == path@);
    loop
        invariant
            n == path@.len(),
            k < n,
            walk(path@, tree@) == walk(path@.subrange(k as int, n as int), cur@),
        decreases n - k,
    {
        let rank = path[k];
        if rank >= cur.len() {
            return None;
        }
        if k + 1 == n {
            return Some(cur[rank].idx);
        }
        assert(path@.subrange(k as int, n as int).drop_first() == path@.subrange(k + 1, n as int));
        cur = cur[rank].children.as_slice();
        k = k + 1;
    }
}

/// The siblings that the walk along `path` stands among after `k` steps,
/// if its first `k` ranks are in range.
pub open spec fn siblings_at(path: Seq<usize>, tree: Seq<FileIdx>, k: int) -> Option<Seq<FileIdx>>
    decreases k,
{
    if k <= 0 {
        Some(tree)
    } else if path.len() > 0 && path[0] < tree.len() {
        siblings_at(path.drop_first(), tree[path[0] as int].children@, k - 1)
    } else {
        None
    }
}

/// Resolving an empty path, a path over no nodes, or a path whose rank at
/// some step is out of range for the siblings reached there, finds nothing.
pub proof fn lemma_walk_out_of_range(path: Seq<usize>, tree: Seq<FileIdx>, k: int)
    ensures
        path.len() == 0 ==> walk(path, tree) is None,
        tree.len() == 0 ==> walk(path, tree) is None,
        0 <= k < path.len() && siblings_at(path, tree, k) is Some && path[k] >= siblings_at(
            path,
            tree,
            k,
        )->0.len() ==> walk(path, tree) is None,
    decreases k,
{
    if 0 < k < path.len() && path[0] < tree.len() {
        let rest = path.drop_first();
        lemma_walk_out_of_range(rest, tree[path[0] as int].children@, k - 1);
        assert(rest[k - 1] == path[k]);
    }
}

/// The entries of the group that the tree path `p` leads to, from depth
/// `level` down.
pub open spec fn path_group(xs: Seq<(usize, Seq<u64>)>, level: int, p: Seq<usize>) -> Seq<
    (usize, Seq<u64>),
>
    decreases p.len(),
{
    if p.len() == 0 {
        xs
    } else {
        let ks = id_keys(xs, level);
        if p[0] < ks.len() {
            path_group(id_group(xs, level, ks[p[0] as int]), level + 1, p.drop_first())
        } else {
            Seq::empty()
        }
    }
}

/// The tree path `p` leads to a node of the index tree of `xs`: each rank
/// is in range, and every node passed on the way has more than one entry.
pub open spec fn reaches(xs: Seq<(usize, Seq<u64>)>, level: int, p: Seq<usize>) -> bool
    decreases p.len(),
{
    let ks = id_keys(xs, level);
    &&& p.len() > 0
    &&& p[0] < ks.len()
    &&& p.len() > 1 ==> {
        let g = id_group(xs, level, ks[p[0] as int]);
        g.len() > 1 && reaches(g, level + 1, p.drop_first())
    }
}

/// Resolving a tree path recorded on the index tree of `xs` gives the
/// position of the first entry of the group at the node reached, which is
/// the entry itself where that node stands for a single entry; a path that
/// reaches no node gives nothing.
pub proof fn lemma_walk_finds_entry(
    tree: Seq<FileIdx>,
    level: int,
    xs: Seq<(usize, Seq<u64>)>,
    p: Seq<usize>,
)
    requires
        is_index_tree(tree, level, xs),
    ensures
        walk(p, tree) == if reaches(xs, level, p) {
            Some(path_group(xs, level, p)[0].0)
        } else {
            None
        },
        reaches(xs, level, p) && path_group(xs, level, p).len() == 1 ==> walk(p, tree) == Some(
            path_group(xs, level, p)[0].0,
        ),
    decreases p.len(),
{
    if p.len() > 0 && p[0] < tree.len() {
        let ks = id_keys(xs, level);
        let i = p[0] as int;
        assert(tree[i] == tree[i]);
        let g = id_group(xs, level, ks[i]);
        assert(path_group(xs, level, p) == path_group(g, level + 1, p.drop_first()));
        if p.len() == 1 {
            assert(path_group(g, level + 1, p.drop_first()) == g);
        } else if g.len() > 1 {
            lemma_walk_finds_entry(tree[i].children@, level + 1, g, p.drop_first());
        } else {
            assert(walk(p.drop_first(), tree[i].children@) is None);
        }
    }
}

/// Builds the index tree of `files`: their path segments interned as ids in
/// order of first appearance, grouped as `do_build_file_tree_index` does
/// from the roots.
pub fn build_file_tree_index(files: &[File]) -> (r: Vec<FileIdx>)
    requires
        total_segments(file_paths(files@)) < u64::MAX,
    ensures
        is_index_tree(r@, 0, intern_paths(file_paths(files@)).1),
{
    let ghost paths = file_paths(files@);
    let mut table = StringInterner::new();
    let mut xs: Vec<(usize, Vec<u64>)> = Vec::new();
    let mut i: usize = 0;
    while i < files.len()
        invariant
            paths == file_paths(files@),
            i <= files@.len(),
            table.wf(),
            total_segments(paths) < u64::MAX,
            table@.len() <= total_segments(paths.take(i as int)),
            (table@, id_entries(xs@)) == intern_paths(paths.take(i as int)),
        decreases files@.len() - i,
    {
        let segs = split_path(files[i].name.as_str());
        assert(paths.take(i + 1).drop_last() == paths.take(i as int));
        assert(paths.take(i + 1).last() == files@[i as int].name@);
        proof {
            lemma_total_segments_prefix(paths, i + 1);
        }
        let ids = intern_all(&mut table, &segs);
        xs.push((i, ids));
        assert(id_entries(xs@) =~= intern_paths(paths.take(i + 1)).1);
        i = i + 1;
    }
    assert(paths.take(files@.len() as int) == paths);
    do_build_file_tree_index(0, xs)
}

} // verus!
