//! The display tree: path segments grouped level by level, siblings in
//! lexicographic order, each node carrying the summed size and downloaded
//! bytes of the records below it.

use vstd::prelude::*;
use crate::record::File;
use crate::segments::{split_path, split_segments, views};
use crate::text_order::{lemma_lt_irreflexive, lemma_lt_total, lemma_lt_transitive, seq_lt, str_lt};

verus! {

/// One node of a display tree.
#[derive(Debug)]
pub struct Node {
    /// The segment at this depth.
    pub name: String,
    /// The segments from the root down to this one, joined by `/`.
    pub path: String,
    /// The summed size of the records below.
    pub size: u64,
    /// The summed downloaded bytes of the records below.
    pub downloaded: u64,
    pub children: Vec<Node>,
}

/// The entries of a display build as values: size, downloaded bytes and
/// path segments.
pub open spec fn entries(xs: Seq<(u64, u64, Vec<String>)>) -> Seq<(u64, u64, Seq<Seq<char>>)> {
    xs.map_values(|e: (u64, u64, Vec<String>)| (e.0, e.1, views(e.2@)))
}

/// The entries that the records give, in order.
pub open spec fn file_entries(files: Seq<File>) -> Seq<(u64, u64, Seq<Seq<char>>)> {
    files.map_values(|f: File| (f.length, f.bytes_completed, split_segments(f.name@)))
}

/// The entry has a segment at `level`, and that segment is `key`.
pub open spec fn in_group(e: (u64, u64, Seq<Seq<char>>), level: int, key: Seq<char>) -> bool {
    e.2.len() > level && e.2[level] == key
}

/// The entries, in their order, whose segment at `level` is `key`.
pub open spec fn group(xs: Seq<(u64, u64, Seq<Seq<char>>)>, level: int, key: Seq<char>) -> Seq<
    (u64, u64, Seq<Seq<char>>),
>
    decreases xs.len(),
{
    if xs.len() == 0 {
        xs
    } else {
        let g = group(xs.drop_last(), level, key);
        if in_group(xs.last(), level, key) {
            g.push(xs.last())
        } else {
            g
        }
    }
}

/// The summed sizes of the entries.
pub open spec fn size_sum(xs: Seq<(u64, u64, Seq<Seq<char>>)>) -> int
    decreases xs.len(),
{
    if xs.len() == 0 {
        0
    } else {
        size_sum(xs.drop_last()) + xs.last().0
    }
}

/// The summed downloaded bytes of the entries.
pub open spec fn downloaded_sum(xs: Seq<(u64, u64, Seq<Seq<char>>)>) -> int
    decreases xs.len(),
{
    if xs.len() == 0 {
        0
    } else {
        downloaded_sum(xs.drop_last()) + xs.last().1
    }
}

/// `ks` strictly ascending in lexicographic order.
pub open spec fn names_sorted(ks: Seq<Seq<char>>) -> bool {
    forall|i: int, j: int| 0 <= i < j < ks.len() ==> seq_lt(ks[i], ks[j])
}

/// `ks` with `k` put in its place, unless `ks` holds it already.
pub open spec fn insert_name(ks: Seq<Seq<char>>, k: Seq<char>) -> Seq<Seq<char>>
    decreases ks.len(),
{
    if ks.len() == 0 {
        seq![k]
    } else if ks[0] == k {
        ks
    } else if seq_lt(k, ks[0]) {
        seq![k] + ks
    } else {
        seq![ks[0]] + insert_name(ks.drop_first(), k)
    }
}

/// The distinct segments found at `level`, in lexicographic order.
pub open spec fn level_names(xs: Seq<(u64, u64, Seq<Seq<char>>)>, level: int) -> Seq<Seq<char>>
    decreases xs.len(),
{
    if xs.len() == 0 {
        Seq::empty()
    } else {
        let ks = level_names(xs.drop_last(), level);
        if xs.last().2.len() > level {
            insert_name(ks, xs.last().2[level])
        } else {
            ks
        }
    }
}

/// `name` appended to the path `prefix`, with a `/` between unless the
/// prefix is empty.
pub open spec fn join_path(prefix: Seq<char>, name: Seq<char>) -> Seq<char> {
    if prefix.len() == 0 {
        name
    } else {
        prefix + seq!['/'] + name
    }
}

/// `nodes` is the display tree that the entries `xs` give at depth `level`
/// below the path `prefix`: one node per distinct segment, in lexicographic
/// order, with the sums of its group; a node has children only when its
/// group has more than one entry.
pub open spec fn is_display_tree(
    nodes: Seq<Node>,
    prefix: Seq<char>,
    level: int,
    xs: Seq<(u64, u64, Seq<Seq<char>>)>,
) -> bool
    decreases nodes,
{
    let ks = level_names(xs, level);
    &&& nodes.len() == ks.len()
    &&& forall|i: int|
        #![trigger nodes[i]]
        0 <= i < nodes.len() ==> {
            let g = group(xs, level, ks[i]);
            &&& nodes[i].name@ == ks[i]
            &&& nodes[i].path@ == join_path(prefix, ks[i])
            &&& nodes[i].size == size_sum(g)
            &&& nodes[i].downloaded == downloaded_sum(g)
            &&& if g.len() > 1 {
                is_display_tree(nodes[i].children@, join_path(prefix, ks[i]), level + 1, g)
            } else {
                nodes[i].children@.len() == 0
            }
        }
}

/// The largest number of segments among the entries.
pub open spec fn depth(xs: Seq<(u64, u64, Seq<Seq<char>>)>) -> int
    decreases xs.len(),
{
    if xs.len() == 0 {
        0
    } else {
        let d = depth(xs.drop_last());
        if xs.last().2.len() > d {
            xs.last().2.len() as int
        } else {
            d
        }
    }
}

proof fn lemma_group(xs: Seq<(u64, u64, Seq<Seq<char>>)>, level: int, key: Seq<char>)
    ensures
        forall|j: int|
            0 <= j < group(xs, level, key).len() ==> #[trigger] in_group(
                group(xs, level, key)[j],
                level,
                key,
            ),
        depth(group(xs, level, key)) <= depth(xs),
        group(xs, level, key).len() > 0 ==> depth(group(xs, level, key)) > level,
        size_sum(group(xs, level, key)) <= size_sum(xs),
        downloaded_sum(group(xs, level, key)) <= downloaded_sum(xs),
    decreases xs.len(),
{
    if xs.len() > 0 {
        lemma_group(xs.drop_last(), level, key);
        let g = group(xs.drop_last(), level, key);
        if in_group(xs.last(), level, key) {
            assert(g.push(xs.last()).drop_last() == g);
        }
    }
}

proof fn lemma_sum_prefix(xs: Seq<(u64, u64, Seq<Seq<char>>)>, i: int)
    requires
        0 <= i <= xs.len(),
    ensures
        size_sum(xs.take(i)) <= size_sum(xs),
        downloaded_sum(xs.take(i)) <= downloaded_sum(xs),
    decreases xs.len(),
{
    if i < xs.len() {
        lemma_sum_prefix(xs.drop_last(), i);
        assert(xs.drop_last().take(i) == xs.take(i));
    } else {
        assert(xs.take(i) == xs);
    }
}

proof fn lemma_insert_name_at(ks: Seq<Seq<char>>, k: Seq<char>, i: int)
    requires
        names_sorted(ks),
        0 <= i <= ks.len(),
        forall|j: int| 0 <= j < i ==> seq_lt(#[trigger] ks[j], k),
        i < ks.len() ==> !seq_lt(ks[i], k),
    ensures
        insert_name(ks, k) == if i < ks.len() && ks[i] == k {
            ks
        } else {
            ks.insert(i, k)
        },
    decreases i,
{
    if ks.len() == 0 {
        assert(seq![k] =~= ks.insert(0, k));
    } else if i == 0 {
        if ks[0] != k {
            lemma_lt_total(k, ks[0]);
            assert(seq![k] + ks =~= ks.insert(0, k));
        }
    } else {
        let rest = ks.drop_first();
        assert(seq_lt(ks[0], k));
        lemma_lt_total(ks[0], k);
        lemma_lt_irreflexive(k);
        assert forall|j: int| 0 <= j < i - 1 implies seq_lt(#[trigger] rest[j], k) by {
            assert(rest[j] == ks[j + 1]);
        }
        lemma_insert_name_at(rest, k, i - 1);
        if i < ks.len() && ks[i] == k {
            assert(seq![ks[0]] + rest =~= ks);
        } else {
            assert(seq![ks[0]] + rest.insert(i - 1, k) =~= ks.insert(i, k));
        }
    }
}

pub proof fn lemma_insert_name_sorted(ks: Seq<Seq<char>>, k: Seq<char>)
    requires
        names_sorted(ks),
    ensures
        names_sorted(insert_name(ks, k)),
        forall|x: Seq<char>| #[trigger] insert_name(ks, k).contains(x) <==> ks.contains(x) || x == k,
    decreases ks.len(),
{
    if ks.len() > 0 && ks[0] != k {
        if seq_lt(k, ks[0]) {
            let r = seq![k] + ks;
            assert forall|a: int, b: int| 0 <= a < b < r.len() implies seq_lt(r[a], r[b]) by {
                if a == 0 {
                    if b > 1 {
                        lemma_lt_transitive(k, ks[0], ks[b - 1]);
                    }
                }
            }
            assert forall|x: Seq<char>| #[trigger] r.contains(x) <==> ks.contains(x) || x == k by {
                if r.contains(x) {
                    let j = choose|j: int| 0 <= j < r.len() && r[j] == x;
                    if j > 0 {
                        assert(ks[j - 1] == x);
                    }
                }
                if ks.contains(x) {
                    let j = choose|j: int| 0 <= j < ks.len() && ks[j] == x;
                    assert(r[j + 1] == x);
                }
                if x == k {
                    assert(r[0] == x);
                }
            }
        } else {
            lemma_lt_total(k, ks[0]);
            let rest = ks.drop_first();
            lemma_insert_name_sorted(rest, k);
            let t = insert_name(rest, k);
            let r = seq![ks[0]] + t;
            assert forall|j: int| 0 <= j < t.len() implies seq_lt(ks[0], #[trigger] t[j]) by {
                assert(t.contains(t[j]));
                if t[j] != k {
                    let m = choose|m: int| 0 <= m < rest.len() && rest[m] == t[j];
                    assert(ks[m + 1] == t[j]);
                }
            }
            assert forall|a: int, b: int| 0 <= a < b < r.len() implies seq_lt(r[a], r[b]) by {
                if a == 0 {
                    assert(r[b] == t[b - 1]);
                } else {
                    assert(r[a] == t[a - 1] && r[b] == t[b - 1]);
                }
            }
            assert forall|x: Seq<char>| #[trigger] r.contains(x) <==> ks.contains(x) || x == k by {
                if r.contains(x) {
                    let j = choose|j: int| 0 <= j < r.len() && r[j] == x;
                    if j > 0 {
                        assert(t[j - 1] == x);
                        assert(t.contains(x));
                        if x != k {
                            let m = choose|m: int| 0 <= m < rest.len() && rest[m] == x;
                            assert(ks[m + 1] == x);
                        }
                    }
                }
                if ks.contains(x) {
                    let j = choose|j: int| 0 <= j < ks.len() && ks[j] == x;
                    if j > 0 {
                        assert(rest[j - 1] == x);
                        assert(rest.contains(x));
                        assert(t.contains(x));
                        let m = choose|m: int| 0 <= m < t.len() && t[m] == x;
                        assert(r[m + 1] == x);
                    } else {
                        assert(r[0] == x);
                    }
                }
                if x == k {
                    assert(t.contains(k));
                    let m = choose|m: int| 0 <= m < t.len() && t[m] == k;
                    assert(r[m + 1] == x);
                }
            }
        }
    } else if ks.len() > 0 {
        assert(ks[0] == k);
    } else {
        assert(seq![k][0] == k);
    }
}

/// The names of `level_names` are exactly the segments found at `level`,
/// strictly ascending.
pub proof fn lemma_level_names_members(xs: Seq<(u64, u64, Seq<Seq<char>>)>, level: int)
    ensures
        names_sorted(level_names(xs, level)),
        forall|k: Seq<char>|
            #[trigger] level_names(xs, level).contains(k) <==> exists|j: int|
                0 <= j < xs.len() && #[trigger] in_group(xs[j], level, k),
    decreases xs.len(),
{
    if xs.len() > 0 {
        let pre = xs.drop_last();
        lemma_level_names_members(pre, level);
        let ks = level_names(pre, level);
        if xs.last().2.len() > level {
            lemma_insert_name_sorted(ks, xs.last().2[level]);
        }
        assert forall|k: Seq<char>|
            #[trigger] level_names(xs, level).contains(k) <==> exists|j: int|
                0 <= j < xs.len() && #[trigger] in_group(xs[j], level, k) by {
            if exists|j: int| 0 <= j < xs.len() && #[trigger] in_group(xs[j], level, k) {
                let j = choose|j: int| 0 <= j < xs.len() && #[trigger] in_group(xs[j], level, k);
                if j < xs.len() - 1 {
                    assert(pre[j] == xs[j]);
                }
            }
            if exists|j: int| 0 <= j < pre.len() && #[trigger] in_group(pre[j], level, k) {
                let j = choose|j: int| 0 <= j < pre.len() && #[trigger] in_group(pre[j], level, k);
                assert(xs[j] == pre[j]);
            }
            if level_names(xs, level).contains(k) && !ks.contains(k) {
                assert(in_group(xs[xs.len() - 1], level, k));
            }
        }
    }
}

proof fn lemma_group_nonempty(xs: Seq<(u64, u64, Seq<Seq<char>>)>, level: int, k: Seq<char>)
    requires
        exists|j: int| 0 <= j < xs.len() && #[trigger] in_group(xs[j], level, k),
    ensures
        group(xs, level, k).len() > 0,
    decreases xs.len(),
{
    if !in_group(xs.last(), level, k) {
        let j = choose|j: int| 0 <= j < xs.len() && #[trigger] in_group(xs[j], level, k);
        assert(xs.drop_last()[j] == xs[j]);
        lemma_group_nonempty(xs.drop_last(), level, k);
    }
}

/// Puts `k` in its place in the ascending `ks`, unless it is there already.
fn insert_sorted_name(ks: &mut Vec<String>, k: String)
    requires
        names_sorted(views(old(ks)@)),
    ensures
        views(final(ks)@) == insert_name(views(old(ks)@), k@),
        names_sorted(views(final(ks)@)),
{
    let n = ks.len();
    let mut i: usize = 0;
    while i < n && str_lt(ks[i].as_str(), k.as_str())
        invariant
            n == ks@.len(),
            i <= n,
            forall|j: int| 0 <= j < i ==> seq_lt(#[trigger] views(ks@)[j], k@),
        decreases n - i,
    {
        i = i + 1;
    }
    proof {
        lemma_insert_name_at(views(ks@), k@, i as int);
        lemma_insert_name_sorted(views(ks@), k@);
    }
    if i < n && ks[i] == k {
        return;
    }
    ks.insert(i, k);
    assert(views(ks@) =~= views(old(ks)@).insert(i as int, k@));
}

/// The distinct segments at `level`, in lexicographic order.
fn collect_level_names(level: usize, xs: &Vec<(u64, u64, Vec<String>)>) -> (r: Vec<String>)
    ensures
        views(r@) == level_names(entries(xs@), level as int),
        names_sorted(views(r@)),
{
    let ghost ex = entries(xs@);
    let mut ks: Vec<String> = Vec::new();
    let mut i: usize = 0;
    assert(views(ks@) =~= Seq::<Seq<char>>::empty());
    while i < xs.len()
        invariant
            ex == entries(xs@),
            i <= xs@.len(),
            views(ks@) == level_names(ex.take(i as int), level as int),
            names_sorted(views(ks@)),
        decreases xs@.len() - i,
    {
        assert(ex.take(i + 1).drop_last() == ex.take(i as int));
        assert(ex.take(i + 1).last() == ex[i as int]);
        if xs[i].2.len() > level {
            insert_sorted_name(&mut ks, xs[i].2[level].clone());
        }
        i = i + 1;
    }
    assert(ex.take(xs@.len() as int) == ex);
    ks
}

/// A copy of a list of segments.
fn copy_segments(v: &Vec<String>) -> (r: Vec<String>)
    ensures
        views(r@) == views(v@),
{
    let mut r: Vec<String> = Vec::new();
    let mut i: usize = 0;
    while i < v.len()
        invariant
            i <= v@.len(),
            r@.len() == i,
            views(r@) == views(v@).take(i as int),
        decreases v@.len() - i,
    {
        let c = v[i].clone();
        assert(c@ == v@[i as int]@);
        r.push(c);
        assert(views(r@)[i as int] == c@);
        assert(views(r@) =~= views(v@).take(i + 1));
        i = i + 1;
    }
    assert(views(r@) =~= views(v@));
    r
}

/// The entries whose segment at `level` is `key`, in their order, with
/// their summed sizes and downloaded bytes.
fn collect_group(level: usize, xs: &Vec<(u64, u64, Vec<String>)>, key: &String) -> (r: (
    Vec<(u64, u64, Vec<String>)>,
    u64,
    u64,
))
    requires
        size_sum(entries(xs@)) <= u64::MAX,
        downloaded_sum(entries(xs@)) <= u64::MAX,
    ensures
        entries(r.0@) == group(entries(xs@), level as int, key@),
        r.1 == size_sum(group(entries(xs@), level as int, key@)),
        r.2 == downloaded_sum(group(entries(xs@), level as int, key@)),
{
    let ghost ex = entries(xs@);
    let mut r: Vec<(u64, u64, Vec<String>)> = Vec::new();
    let mut size: u64 = 0;
    let mut downloaded: u64 = 0;
    let mut i: usize = 0;
    while i < xs.len()
        invariant
            ex == entries(xs@),
            size_sum(ex) <= u64::MAX,
            downloaded_sum(ex) <= u64::MAX,
            i <= xs@.len(),
            entries(r@) == group(ex.take(i as int), level as int, key@),
            size == size_sum(group(ex.take(i as int), level as int, key@)),
            downloaded == downloaded_sum(group(ex.take(i as int), level as int, key@)),
        decreases xs@.len() - i,
    {
        let ghost pre = ex.take(i as int);
        let ghost cur = ex.take(i + 1);
        assert(cur.drop_last() == pre);
        assert(cur.last() == ex[i as int]);
        proof {
            lemma_group(cur, level as int, key@);
            lemma_sum_prefix(ex, i + 1);
        }
        let x = &xs[i];
        if x.2.len() > level && x.2[level] == *key {
            let ghost g = group(pre, level as int, key@);
            assert(group(cur, level as int, key@) == g.push(ex[i as int]));
            assert(g.push(ex[i as int]).drop_last() == g);
            let segs = copy_segments(&x.2);
            size = size + x.0;
            downloaded = downloaded + x.1;
            r.push((x.0, x.1, segs));
            assert(entries(r@) =~= g.push(ex[i as int]));
        }
        i = i + 1;
    }
    assert(ex.take(xs@.len() as int) == ex);
    (r, size, downloaded)
}

/// `name` below `parent_path`.
fn join(parent_path: &str, name: &String) -> (r: String)
    ensures
        r@ == join_path(parent_path@, name@),
{
    if parent_path.unicode_len() == 0 {
        name.clone()
    } else {
        let mut p = parent_path.to_owned();
        let sep = "/";
        proof {
            reveal_strlit("/");
        }
        p.append(sep);
        p.append(name.as_str());
        p
    }
}

/// Builds the display tree of the entries `xs` (size, downloaded bytes,
/// path segments) at depth `level`, below the path `parent_path`.
pub fn do_build_tree(parent_path: &str, level: usize, xs: Vec<(u64, u64, Vec<String>)>) -> (r: Vec<
    Node,
>)
    requires
        size_sum(entries(xs@)) <= u64::MAX,
        downloaded_sum(entries(xs@)) <= u64::MAX,
    ensures
        is_display_tree(r@, parent_path@, level as int, entries(xs@)),
    decreases depth(entries(xs@)) - level,
{
    let ghost ex = entries(xs@);
    let ks = collect_level_names(level, &xs);
    let mut ns: Vec<Node> = Vec::new();
    let mut j: usize = 0;
    while j < ks.len()
        invariant
            ex == entries(xs@),
            size_sum(ex) <= u64::MAX,
            downloaded_sum(ex) <= u64::MAX,
            views(ks@) == level_names(ex, level as int),
            j <= ks@.len(),
            ns@.len() == j,
            forall|i: int|
                #![trigger ns@[i]]
                0 <= i < j ==> {
                    let key = views(ks@)[i];
                    let g = group(ex, level as int, key);
                    &&& ns@[i].name@ == key
                    &&& ns@[i].path@ == join_path(parent_path@, key)
                    &&& ns@[i].size == size_sum(g)
                    &&& ns@[i].downloaded == downloaded_sum(g)
                    &&& if g.len() > 1 {
                        is_display_tree(ns@[i].children@, join_path(parent_path@, key), level + 1, g)
                    } else {
                        ns@[i].children@.len() == 0
                    }
                },
        decreases ks@.len() - j,
    {
        let name = ks[j].clone();
        assert(name@ == views(ks@)[j as int]);
        let (children, size, downloaded) = collect_group(level, &xs, &name);
        let ghost g = group(ex, level as int, name@);
        proof {
            lemma_group(ex, level as int, name@);
            lemma_level_names_members(ex, level as int);
            assert(level_names(ex, level as int).contains(name@));
            lemma_group_nonempty(ex, level as int, name@);
        }
        let path = join(parent_path, &name);
        let cs = if children.len() > 1 {
            assert(in_group(g[0], level as int, name@));
            assert(entries(children@)[0].2.len() == children@[0].2.len());
            assert(children@[0].2.len() > level);
            do_build_tree(path.as_str(), level + 1, children)
        } else {
            Vec::new()
        };
        ns.push(Node { name, path, size, downloaded, children: cs });
        j = j + 1;
    }
    ns
}

/// The entry that a record gives: size, downloaded bytes, path segments.
fn file_entry(f: &File) -> (r: (u64, u64, Vec<String>))
    ensures
        r.0 == f.length,
        r.1 == f.bytes_completed,
        views(r.2@) == split_segments(f.name@),
{
    (f.length, f.bytes_completed, split_path(f.name.as_str()))
}

/// Builds the display tree of `files` from the roots.
pub fn build_tree(files: &[File]) -> (r: Vec<Node>)
    requires
        size_sum(file_entries(files@)) <= u64::MAX,
        downloaded_sum(file_entries(files@)) <= u64::MAX,
    ensures
        is_display_tree(r@, Seq::empty(), 0, file_entries(files@)),
{
    let ghost fe = file_entries(files@);
    let mut xs: Vec<(u64, u64, Vec<String>)> = Vec::new();
    let mut i: usize = 0;
    while i < files.len()
        invariant
            fe == file_entries(files@),
            i <= files@.len(),
            xs@.len() == i,
            entries(xs@) == fe.take(i as int),
        decreases files@.len() - i,
    {
        let e = file_entry(&files[i]);
        xs.push(e);
        assert(entries(xs@)[i as int] == fe[i as int]);
        assert(entries(xs@) =~= fe.take(i + 1));
        i = i + 1;
    }
    assert(entries(xs@) =~= fe);
    proof {
        reveal_strlit("");
    }
    do_build_tree("", 0, xs)
}

/// The summed sizes (`downloaded` false) or downloaded bytes (true).
pub open spec fn amount(xs: Seq<(u64, u64, Seq<Seq<char>>)>, downloaded: bool) -> int {
    if downloaded {
        downloaded_sum(xs)
    } else {
        size_sum(xs)
    }
}

/// The amounts of the groups of the keys `ks`, added up.
pub open spec fn groups_amount(
    xs: Seq<(u64, u64, Seq<Seq<char>>)>,
    level: int,
    ks: Seq<Seq<char>>,
    downloaded: bool,
) -> int
    decreases ks.len(),
{
    if ks.len() == 0 {
        0
    } else {
        amount(group(xs, level, ks[0]), downloaded) + groups_amount(
            xs,
            level,
            ks.drop_first(),
            downloaded,
        )
    }
}

/// The sizes (`downloaded` false) or downloaded bytes (true) of sibling
/// nodes, added up.
pub open spec fn nodes_amount(nodes: Seq<Node>, downloaded: bool) -> int
    decreases nodes.len(),
{
    if nodes.len() == 0 {
        0
    } else {
        (if downloaded {
            nodes[0].downloaded as int
        } else {
            nodes[0].size as int
        }) + nodes_amount(nodes.drop_first(), downloaded)
    }
}

proof fn lemma_group_empty(xs: Seq<(u64, u64, Seq<Seq<char>>)>, level: int, k: Seq<char>)
    requires
        forall|j: int| 0 <= j < xs.len() ==> !#[trigger] in_group(xs[j], level, k),
    ensures
        group(xs, level, k).len() == 0,
    decreases xs.len(),
{
    if xs.len() > 0 {
        assert(!in_group(xs[xs.len() - 1], level, k));
        assert forall|j: int| 0 <= j < xs.len() - 1 implies !#[trigger] in_group(
            xs.drop_last()[j],
            level,
            k,
        ) by {
            assert(xs.drop_last()[j] == xs[j]);
        }
        lemma_group_empty(xs.drop_last(), level, k);
    }
}

/// Adding an entry adds its amount to the groups of `ks` once, if its key
/// is among them.
proof fn lemma_groups_amount_push(
    pre: Seq<(u64, u64, Seq<Seq<char>>)>,
    e: (u64, u64, Seq<Seq<char>>),
    level: int,
    ks: Seq<Seq<char>>,
    downloaded: bool,
)
    requires
        names_sorted(ks),
        e.2.len() > level,
    ensures
        groups_amount(pre.push(e), level, ks, downloaded) == groups_amount(pre, level, ks, downloaded)
            + if ks.contains(e.2[level]) {
            if downloaded {
                e.1 as int
            } else {
                e.0 as int
            }
        } else {
            0
        },
    decreases ks.len(),
{
    if ks.len() > 0 {
        let xs = pre.push(e);
        let rest = ks.drop_first();
        let k = e.2[level];
        assert(xs.drop_last() == pre);
        assert(names_sorted(rest));
        lemma_groups_amount_push(pre, e, level, rest, downloaded);
        let g = group(pre, level, ks[0]);
        if in_group(e, level, ks[0]) {
            assert(g.push(e).drop_last() == g);
        }
        if ks[0] == k {
            lemma_lt_irreflexive(k);
            if rest.contains(k) {
                let m = choose|m: int| 0 <= m < rest.len() && rest[m] == k;
                assert(seq_lt(ks[0], ks[m + 1]));
            }
            assert(ks[0] == k);
        } else {
            if ks.contains(k) {
                let m = choose|m: int| 0 <= m < ks.len() && ks[m] == k;
                assert(rest[m - 1] == k);
            }
            if rest.contains(k) {
                let m = choose|m: int| 0 <= m < rest.len() && rest[m] == k;
                assert(ks[m + 1] == k);
            }
        }
    }
}

/// Inserting a new key adds the amount of its group.
proof fn lemma_groups_amount_insert(
    xs: Seq<(u64, u64, Seq<Seq<char>>)>,
    level: int,
    ks: Seq<Seq<char>>,
    k: Seq<char>,
    downloaded: bool,
)
    requires
        names_sorted(ks),
    ensures
        groups_amount(xs, level, insert_name(ks, k), downloaded) == groups_amount(
            xs,
            level,
            ks,
            downloaded,
        ) + if ks.contains(k) {
            0
        } else {
            amount(group(xs, level, k), downloaded)
        },
    decreases ks.len(),
{
    if ks.len() == 0 {
        assert(seq![k].drop_first() == ks);
    } else if ks[0] == k {
        assert(ks.contains(k));
    } else if seq_lt(k, ks[0]) {
        assert((seq![k] + ks).drop_first() == ks);
        if ks.contains(k) {
            let m = choose|m: int| 0 <= m < ks.len() && ks[m] == k;
            lemma_lt_total(k, ks[0]);
            if m > 0 {
                lemma_lt_transitive(k, ks[0], ks[m]);
                lemma_lt_irreflexive(k);
            }
        }
    } else {
        let rest = ks.drop_first();
        lemma_groups_amount_insert(xs, level, rest, k, downloaded);
        let t = insert_name(rest, k);
        assert((seq![ks[0]] + t).drop_first() == t);
        assert((seq![ks[0]] + t)[0] == ks[0]);
        if ks.contains(k) {
            let m = choose|m: int| 0 <= m < ks.len() && ks[m] == k;
            assert(rest[m - 1] == k);
        }
        if rest.contains(k) {
            let m = choose|m: int| 0 <= m < rest.len() && rest[m] == k;
            assert(ks[m + 1] == k);
        }
    }
}

/// Where every entry reaches `level`, the groups at `level` share out the
/// entries' amounts.
proof fn lemma_groups_share_out(xs: Seq<(u64, u64, Seq<Seq<char>>)>, level: int, downloaded: bool)
    requires
        forall|j: int| 0 <= j < xs.len() ==> (#[trigger] xs[j]).2.len() > level,
    ensures
        groups_amount(xs, level, level_names(xs, level), downloaded) == amount(xs, downloaded),
    decreases xs.len(),
{
    if xs.len() > 0 {
        let pre = xs.drop_last();
        let e = xs.last();
        let k = e.2[level];
        assert(xs[xs.len() - 1] == e);
        assert forall|j: int| 0 <= j < pre.len() implies (#[trigger] pre[j]).2.len() > level by {
            assert(pre[j] == xs[j]);
        }
        lemma_groups_share_out(pre, level, downloaded);
        let ks = level_names(pre, level);
        lemma_level_names_members(pre, level);
        assert(pre.push(e) == xs);
        lemma_groups_amount_push(pre, e, level, ks, downloaded);
        lemma_groups_amount_insert(xs, level, ks, k, downloaded);
        assert(level_names(xs, level) == insert_name(ks, k));
        assert(amount(xs, downloaded) == amount(pre, downloaded) + (if downloaded {
            e.1 as int
        } else {
            e.0 as int
        }));
        if !ks.contains(k) {
            assert forall|j: int| 0 <= j < pre.len() implies !#[trigger] in_group(
                pre[j],
                level,
                k,
            ) by {
                if in_group(pre[j], level, k) {
                    assert(ks.contains(k));
                }
            }
            lemma_group_empty(pre, level, k);
            assert(group(xs, level, k) == group(pre, level, k).push(e));
            let g0 = group(pre, level, k);
            assert(g0.push(e).drop_last() == g0);
            assert(g0.push(e).last() == e);
            assert(size_sum(g0) == 0);
            assert(downloaded_sum(g0) == 0);
            assert(size_sum(g0.push(e)) == e.0);
            assert(downloaded_sum(g0.push(e)) == e.1);
            assert(amount(group(xs, level, k), downloaded) == (if downloaded {
                e.1 as int
            } else {
                e.0 as int
            }));
        }
    }
}

proof fn lemma_nodes_amount(
    nodes: Seq<Node>,
    xs: Seq<(u64, u64, Seq<Seq<char>>)>,
    level: int,
    ks: Seq<Seq<char>>,
    downloaded: bool,
)
    requires
        nodes.len() == ks.len(),
        forall|i: int|
            0 <= i < nodes.len() ==> (#[trigger] nodes[i]).size == size_sum(group(xs, level, ks[i]))
                && nodes[i].downloaded == downloaded_sum(group(xs, level, ks[i])),
    ensures
        nodes_amount(nodes, downloaded) == groups_amount(xs, level, ks, downloaded),
    decreases nodes.len(),
{
    if nodes.len() > 0 {
        assert(nodes[0] == nodes[0]);
        assert forall|i: int| 0 <= i < nodes.len() - 1 implies (#[trigger] nodes.drop_first()[i]).size
            == size_sum(group(xs, level, ks.drop_first()[i])) && nodes.drop_first()[i].downloaded
            == downloaded_sum(group(xs, level, ks.drop_first()[i])) by {
            assert(nodes.drop_first()[i] == nodes[i + 1]);
        }
        lemma_nodes_amount(nodes.drop_first(), xs, level, ks.drop_first(), downloaded);
    }
}

/// The sizes of the sibling nodes of a display tree add up to the sizes of
/// the entries it was built from, and so do their downloaded bytes, where
/// every entry has a segment at the siblings' depth. From the roots that
/// always holds; below a node it holds where no entry of its group ends at
/// the node itself.
pub proof fn lemma_sizes_add_up(
    nodes: Seq<Node>,
    prefix: Seq<char>,
    level: int,
    xs: Seq<(u64, u64, Seq<Seq<char>>)>,
)
    requires
        is_display_tree(nodes, prefix, level, xs),
        forall|j: int| 0 <= j < xs.len() ==> (#[trigger] xs[j]).2.len() > level,
    ensures
        nodes_amount(nodes, false) == size_sum(xs),
        nodes_amount(nodes, true) == downloaded_sum(xs),
{
    let ks = level_names(xs, level);
    assert forall|i: int| 0 <= i < nodes.len() implies (#[trigger] nodes[i]).size == size_sum(
        group(xs, level, ks[i]),
    ) && nodes[i].downloaded == downloaded_sum(group(xs, level, ks[i])) by {}
    lemma_nodes_amount(nodes, xs, level, ks, false);
    lemma_nodes_amount(nodes, xs, level, ks, true);
    lemma_groups_share_out(xs, level, false);
    lemma_groups_share_out(xs, level, true);
}

/// Every path has at least one segment, so the roots of the display tree of
/// any records hold all of their sizes and downloaded bytes.
pub proof fn lemma_root_sizes_add_up(nodes: Seq<Node>, files: Seq<File>)
    requires
        is_display_tree(nodes, Seq::empty(), 0, file_entries(files)),
    ensures
        nodes_amount(nodes, false) == size_sum(file_entries(files)),
        nodes_amount(nodes, true) == downloaded_sum(file_entries(files)),
{
    let xs = file_entries(files);
    assert forall|j: int| 0 <= j < xs.len() implies (#[trigger] xs[j]).2.len() > 0 by {
        crate::segments::lemma_split_nonempty(files[j].name@);
    }
    lemma_sizes_add_up(nodes, Seq::empty(), 0, xs);
}

/// The siblings at every depth of the tree are in strictly ascending
/// lexicographic order of their names.
pub open spec fn siblings_ordered(nodes: Seq<Node>) -> bool
    decreases nodes,
{
    &&& forall|i: int, j: int|
        0 <= i < j < nodes.len() ==> seq_lt(#[trigger] nodes[i].name@, #[trigger] nodes[j].name@)
    &&& forall|i: int| 0 <= i < nodes.len() ==> siblings_ordered(#[trigger] nodes[i].children@)
}

/// In a display tree, siblings at every depth are strictly ordered by name,
/// so no two of them share a name.
pub proof fn lemma_siblings_ordered(
    nodes: Seq<Node>,
    prefix: Seq<char>,
    level: int,
    xs: Seq<(u64, u64, Seq<Seq<char>>)>,
)
    requires
        is_display_tree(nodes, prefix, level, xs),
    ensures
        siblings_ordered(nodes),
    decreases nodes,
{
    let ks = level_names(xs, level);
    lemma_level_names_members(xs, level);
    assert forall|i: int| 0 <= i < nodes.len() implies siblings_ordered(
        #[trigger] nodes[i].children@,
    ) by {
        let g = group(xs, level, ks[i]);
        if g.len() > 1 {
            lemma_siblings_ordered(nodes[i].children@, join_path(prefix, ks[i]), level + 1, g);
        }
    }
    assert forall|i: int, j: int| 0 <= i < j < nodes.len() implies seq_lt(
        #[trigger] nodes[i].name@,
        #[trigger] nodes[j].name@,
    ) by {
        assert(nodes[i].name@ == ks[i]);
        assert(nodes[j].name@ == ks[j]);
    }
}

/// Two display trees with the same names, paths, totals and shape.
pub open spec fn same_display(a: Seq<Node>, b: Seq<Node>) -> bool
    decreases a,
{
    &&& a.len() == b.len()
    &&& forall|i: int|
        #![trigger a[i]]
        0 <= i < a.len() ==> {
            &&& a[i].name@ == b[i].name@
            &&& a[i].path@ == b[i].path@
            &&& a[i].size == b[i].size
            &&& a[i].downloaded == b[i].downloaded
            &&& same_display(a[i].children@, b[i].children@)
        }
}

proof fn lemma_group_counts(xs: Seq<(u64, u64, Seq<Seq<char>>)>, level: int, k: Seq<char>)
    ensures
        forall|v: (u64, u64, Seq<Seq<char>>)|
            #[trigger] group(xs, level, k).to_multiset().count(v) == if in_group(v, level, k) {
                xs.to_multiset().count(v)
            } else {
                0
            },
    decreases xs.len(),
{
    broadcast use vstd::seq_lib::to_multiset_build;
    broadcast use vstd::multiset::group_multiset_axioms;

    broadcast use vstd::seq_lib::to_multiset_len;

    if xs.len() == 0 {
        assert(group(xs, level, k) == xs);
        assert(xs.to_multiset().len() == 0);
        assert(xs.to_multiset() =~= vstd::multiset::Multiset::empty());
    } else {
        let pre = xs.drop_last();
        let e = xs.last();
        lemma_group_counts(pre, level, k);
        assert(pre.push(e) == xs);
        let g = group(pre, level, k);
        assert forall|v: (u64, u64, Seq<Seq<char>>)|
            #[trigger] group(xs, level, k).to_multiset().count(v) == if in_group(v, level, k) {
                xs.to_multiset().count(v)
            } else {
                0
            } by {
            assert(xs.to_multiset() == pre.to_multiset().insert(e));
            if in_group(e, level, k) {
                assert(group(xs, level, k) == g.push(e));
                assert(group(xs, level, k).to_multiset() == g.to_multiset().insert(e));
            } else {
                assert(group(xs, level, k) == g);
            }
        }
    }
}

proof fn lemma_sum_remove(ys: Seq<(u64, u64, Seq<Seq<char>>)>, j: int)
    requires
        0 <= j < ys.len(),
    ensures
        size_sum(ys) == size_sum(ys.remove(j)) + ys[j].0,
        downloaded_sum(ys) == downloaded_sum(ys.remove(j)) + ys[j].1,
    decreases ys.len(),
{
    if j == ys.len() - 1 {
        assert(ys.remove(j) == ys.drop_last());
    } else {
        lemma_sum_remove(ys.drop_last(), j);
        assert(ys.remove(j).drop_last() == ys.drop_last().remove(j));
        assert(ys.remove(j).last() == ys.last());
    }
}

proof fn lemma_sums_order_free(xs: Seq<(u64, u64, Seq<Seq<char>>)>, ys: Seq<(u64, u64, Seq<Seq<char>>)>)
    requires
        xs.to_multiset() == ys.to_multiset(),
    ensures
        size_sum(xs) == size_sum(ys),
        downloaded_sum(xs) == downloaded_sum(ys),
    decreases xs.len(),
{
    broadcast use vstd::seq_lib::to_multiset_build;
    broadcast use vstd::seq_lib::to_multiset_remove;
    broadcast use vstd::seq_lib::to_multiset_len;
    broadcast use vstd::seq_lib::to_multiset_contains;
    broadcast use vstd::multiset::group_multiset_axioms;

    if xs.len() == 0 {
        assert(xs.to_multiset().len() == 0);
        assert(ys.to_multiset().len() == 0);
        assert(ys.len() == 0);
    } else {
        let e = xs.last();
        let pre = xs.drop_last();
        assert(pre.push(e) == xs);
        assert(xs.to_multiset().count(e) > 0);
        assert(ys.contains(e));
        let j = choose|j: int| 0 <= j < ys.len() && ys[j] == e;
        let rest = ys.remove(j);
        assert(rest.to_multiset() =~= pre.to_multiset());
        lemma_sums_order_free(pre, rest);
        lemma_sum_remove(ys, j);
    }
}

proof fn lemma_sorted_names_unique(a: Seq<Seq<char>>, b: Seq<Seq<char>>)
    requires
        names_sorted(a),
        names_sorted(b),
        forall|x: Seq<char>| a.contains(x) <==> b.contains(x),
    ensures
        a == b,
    decreases a.len(),
{
    if a.len() == 0 {
        if b.len() > 0 {
            assert(b.contains(b[0]));
        }
    } else if b.len() == 0 {
        assert(a.contains(a[0]));
    } else {
        assert(a.contains(a[0]) && b.contains(b[0]));
        let m = choose|m: int| 0 <= m < b.len() && b[m] == a[0];
        let n = choose|n: int| 0 <= n < a.len() && a[n] == b[0];
        if m > 0 && n > 0 {
            lemma_lt_total(a[0], b[0]);
        }
        if m > 0 && n == 0 {
            lemma_lt_irreflexive(b[0]);
        }
        if m == 0 && n > 0 {
            lemma_lt_irreflexive(a[0]);
        }
        assert(a[0] == b[0]);
        let (ra, rb) = (a.drop_first(), b.drop_first());
        assert forall|x: Seq<char>| ra.contains(x) <==> rb.contains(x) by {
            if ra.contains(x) {
                let i = choose|i: int| 0 <= i < ra.len() && ra[i] == x;
                assert(a[i + 1] == x);
                assert(b.contains(x));
                let q = choose|q: int| 0 <= q < b.len() && b[q] == x;
                if q == 0 {
                    lemma_lt_irreflexive(x);
                }
                assert(rb[q - 1] == x);
            }
            if rb.contains(x) {
                let i = choose|i: int| 0 <= i < rb.len() && rb[i] == x;
                assert(b[i + 1] == x);
                assert(a.contains(x));
                let q = choose|q: int| 0 <= q < a.len() && a[q] == x;
                if q == 0 {
                    lemma_lt_irreflexive(x);
                }
                assert(ra[q - 1] == x);
            }
        }
        lemma_sorted_names_unique(ra, rb);
        assert(a == seq![a[0]] + ra);
        assert(b == seq![b[0]] + rb);
    }
}

proof fn lemma_names_order_free(
    xs: Seq<(u64, u64, Seq<Seq<char>>)>,
    ys: Seq<(u64, u64, Seq<Seq<char>>)>,
    level: int,
)
    requires
        xs.to_multiset() == ys.to_multiset(),
    ensures
        level_names(xs, level) == level_names(ys, level),
{
    broadcast use vstd::seq_lib::to_multiset_contains;

    lemma_level_names_members(xs, level);
    lemma_level_names_members(ys, level);
    assert forall|x: Seq<char>|
        level_names(xs, level).contains(x) <==> level_names(ys, level).contains(x) by {
        if exists|j: int| 0 <= j < xs.len() && #[trigger] in_group(xs[j], level, x) {
            let j = choose|j: int| 0 <= j < xs.len() && #[trigger] in_group(xs[j], level, x);
            assert(xs.contains(xs[j]));
            assert(xs.to_multiset().count(xs[j]) > 0);
            assert(ys.contains(xs[j]));
            let q = choose|q: int| 0 <= q < ys.len() && ys[q] == xs[j];
            assert(in_group(ys[q], level, x));
        }
        if exists|j: int| 0 <= j < ys.len() && #[trigger] in_group(ys[j], level, x) {
            let j = choose|j: int| 0 <= j < ys.len() && #[trigger] in_group(ys[j], level, x);
            assert(ys.contains(ys[j]));
            assert(ys.to_multiset().count(ys[j]) > 0);
            assert(xs.contains(ys[j]));
            let q = choose|q: int| 0 <= q < xs.len() && xs[q] == ys[j];
            assert(in_group(xs[q], level, x));
        }
    }
    lemma_sorted_names_unique(level_names(xs, level), level_names(ys, level));
}

/// Display trees built from the same entries in any two orders agree in
/// names, paths, totals and shape.
pub proof fn lemma_display_order_free(
    a: Seq<Node>,
    b: Seq<Node>,
    prefix: Seq<char>,
    level: int,
    xs: Seq<(u64, u64, Seq<Seq<char>>)>,
    ys: Seq<(u64, u64, Seq<Seq<char>>)>,
)
    requires
        is_display_tree(a, prefix, level, xs),
        is_display_tree(b, prefix, level, ys),
        xs.to_multiset() == ys.to_multiset(),
    ensures
        same_display(a, b),
    decreases a,
{
    broadcast use vstd::seq_lib::to_multiset_len;

    lemma_names_order_free(xs, ys, level);
    let ks = level_names(xs, level);
    assert forall|i: int| #![trigger a[i]] 0 <= i < a.len() implies {
        &&& a[i].name@ == b[i].name@
        &&& a[i].path@ == b[i].path@
        &&& a[i].size == b[i].size
        &&& a[i].downloaded == b[i].downloaded
        &&& same_display(a[i].children@, b[i].children@)
    } by {
        assert(b[i] == b[i]);
        let gx = group(xs, level, ks[i]);
        let gy = group(ys, level, ks[i]);
        lemma_group_counts(xs, level, ks[i]);
        lemma_group_counts(ys, level, ks[i]);
        assert(gx.to_multiset() =~= gy.to_multiset());
        lemma_sums_order_free(gx, gy);
        assert(gx.len() == gx.to_multiset().len());
        assert(gy.len() == gy.to_multiset().len());
        if gx.len() > 1 {
            lemma_display_order_free(
                a[i].children@,
                b[i].children@,
                join_path(prefix, ks[i]),
                level + 1,
                gx,
                gy,
            );
        }
    }
}

/// Building the display tree of the same records listed in two orders
/// gives the same tree.
pub proof fn lemma_build_order_free(a: Seq<Node>, b: Seq<Node>, files1: Seq<File>, files2: Seq<File>)
    requires
        is_display_tree(a, Seq::empty(), 0, file_entries(files1)),
        is_display_tree(b, Seq::empty(), 0, file_entries(files2)),
        file_entries(files1).to_multiset() == file_entries(files2).to_multiset(),
    ensures
        same_display(a, b),
{
    lemma_display_order_free(a, b, Seq::empty(), 0, file_entries(files1), file_entries(files2));
}

} // verus!
