//! Splitting paths into segments, and interning segments as integer ids.

use vstd::prelude::*;
use crate::text_order::{lemma_lt_irreflexive, lemma_lt_total, str_lt};

verus! {

/// The character sequences that a sequence of strings holds.
pub open spec fn views(v: Seq<String>) -> Seq<Seq<char>> {
    v.map_values(|x: String| x@)
}

/// The segments of a path: the runs of characters between `/` separators,
/// empty runs included. A path always has at least one segment.
pub open spec fn split_segments(s: Seq<char>) -> Seq<Seq<char>>
    decreases s.len(),
{
    if s.len() == 0 {
        seq![Seq::<char>::empty()]
    } else {
        let r = split_segments(s.drop_last());
        if s.last() == '/' {
            r.push(Seq::<char>::empty())
        } else {
            r.update(r.len() - 1, r.last().push(s.last()))
        }
    }
}

pub proof fn lemma_split_nonempty(s: Seq<char>)
    ensures
        split_segments(s).len() >= 1,
    decreases s.len(),
{
    if s.len() > 0 {
        lemma_split_nonempty(s.drop_last());
    }
}

/// Splits `path` on every `/`, keeping empty segments.
pub fn split_path(path: &str) -> (r: Vec<String>)
    ensures
        views(r@) == split_segments(path@),
        r@.len() >= 1,
{
    let n = path.unicode_len();
    let mut segs: Vec<String> = Vec::new();
    let mut start: usize = 0;
    let mut i: usize = 0;
    assert(path@.subrange(0, 0) =~= Seq::<char>::empty());
    assert(views(segs@).push(path@.subrange(0, 0)) =~= split_segments(path@.subrange(0, 0)));
    while i < n
        invariant
            n == path@.len(),
            start <= i <= n,
            views(segs@).push(path@.subrange(start as int, i as int)) == split_segments(
                path@.subrange(0, i as int),
            ),
        decreases n - i,
    {
        let c = path.get_char(i);
        let ghost pre = path@.subrange(0, i as int);
        let ghost cur = path@.subrange(0, i + 1);
        let ghost before = views(segs@);
        assert(cur.drop_last() == pre);
        assert(cur.last() == c);
        proof {
            lemma_split_nonempty(pre);
        }
        assert(split_segments(pre) == before.push(path@.subrange(start as int, i as int)));
        if c == '/' {
            assert(split_segments(cur) == before.push(path@.subrange(start as int, i as int)).push(
                Seq::<char>::empty(),
            ));
            let sub = path.substring_char(start, i);
            let seg = sub.to_owned();
            segs.push(seg);
            assert(views(segs@) =~= before.push(path@.subrange(start as int, i as int)));
            start = i + 1;
            assert(path@.subrange(start as int, i + 1) =~= Seq::<char>::empty());
        } else {
            assert(path@.subrange(start as int, i + 1) =~= path@.subrange(
                start as int,
                i as int,
            ).push(c));
            assert(split_segments(cur) =~= before.push(path@.subrange(start as int, i + 1)));
        }
        i = i + 1;
    }
    let sub = path.substring_char(start, n);
    let last = sub.to_owned();
    segs.push(last);
    assert(path@.subrange(0, n as int) == path@);
    assert(views(segs@) =~= split_segments(path@));
    segs
}

/// The segments seen so far hold pairwise distinct strings.
pub open spec fn distinct(names: Seq<Seq<char>>) -> bool {
    forall|i: int, j: int| 0 <= i < j < names.len() ==> names[i] != names[j]
}

/// The table after interning `s`, and the id it gives `s`: the id of an
/// earlier equal segment, else the next id, ids counting from 1.
pub open spec fn interned(names: Seq<Seq<char>>, s: Seq<char>) -> (Seq<Seq<char>>, int) {
    if names.contains(s) {
        (names, names.index_of(s) + 1)
    } else {
        (names.push(s), names.len() as int + 1)
    }
}

/// A table of path segments, each with an id: its position counted from 1.
pub struct StringInterner {
    names: Vec<String>,
}

impl View for StringInterner {
    type V = Seq<Seq<char>>;

    closed spec fn view(&self) -> Seq<Seq<char>> {
        views(self.names@)
    }
}

impl StringInterner {
    pub open spec fn wf(&self) -> bool {
        distinct(self@)
    }

    pub fn new() -> (r: StringInterner)
        ensures
            r.wf(),
            r@.len() == 0,
    {
        let r = StringInterner { names: Vec::new() };
        assert(r@ =~= Seq::<Seq<char>>::empty());
        r
    }

    pub fn len(&self) -> (r: usize)
        ensures
            r == self@.len(),
    {
        self.names.len()
    }

    /// The id of `s`, added to the table if it is new.
    pub fn intern(&mut self, s: &str) -> (id: u64)
        requires
            old(self).wf(),
            old(self)@.len() < u64::MAX,
        ensures
            final(self).wf(),
            (final(self)@, id as int) == interned(old(self)@, s@),
    {
        let n = self.names.len();
        let mut i: usize = 0;
        while i < n
            invariant
                *self == *old(self),
                self.wf(),
                self@.len() < u64::MAX,
                n == self.names@.len(),
                i <= n,
                forall|k: int| 0 <= k < i ==> self@[k] != s@,
            decreases n - i,
        {
            let a = self.names[i].as_str();
            proof {
                lemma_lt_total(a@, s@);
                lemma_lt_irreflexive(s@);
            }
            if !str_lt(a, s) && !str_lt(s, a) {
                proof {
                    assert(self@[i as int] == s@);
                    assert(self@.contains(s@));
                    let j = self@.index_of(s@);
                    if j != i {
                        assert(self@[j] == s@);
                    }
                }
                return (i + 1) as u64;
            }
            assert(self@[i as int] == self.names@[i as int]@);
            i = i + 1;
        }
        assert(!self@.contains(s@));
        assert(self@.len() == n);
        let owned = s.to_owned();
        self.names.push(owned);
        assert(self@ =~= old(self)@.push(s@));
        n as u64 + 1
    }

    /// The segment with id `id`, if the table has one.
    pub fn resolve(&self, id: u64) -> (r: Option<String>)
        ensures
            r is Some <==> 1 <= id <= self@.len(),
            r is Some ==> r->0@ == self@[id - 1],
    {
        if id >= 1 && id <= self.names.len() as u64 {
            Some(self.names[(id - 1) as usize].clone())
        } else {
            None
        }
    }
}

/// Interning the same segment twice gives the same id and leaves the table
/// as it was; two different segments get different ids; and the id that a
/// segment gets resolves back to that segment.
pub proof fn lemma_interning_laws(names: Seq<Seq<char>>, s: Seq<char>, t: Seq<char>)
    requires
        distinct(names),
    ensures
        distinct(interned(names, s).0),
        interned(interned(names, s).0, s) == interned(names, s),
        1 <= interned(names, s).1 <= interned(names, s).0.len(),
        interned(names, s).0[interned(names, s).1 - 1] == s,
        s != t ==> interned(interned(names, s).0, t).1 != interned(names, s).1,
{
    let (n1, i1) = interned(names, s);
    if names.contains(s) {
        let j = names.index_of(s);
        assert(names[j] == s);
    } else {
        assert(n1[names.len() as int] == s);
        assert(n1.contains(s));
        let j = n1.index_of(s);
        if j != names.len() {
            assert(n1[j] == s);
            assert(names[j] == s);
        }
    }
    assert(n1.contains(s));
    let k = n1.index_of(s);
    assert(n1[k] == s);
    if s != t && n1.contains(t) {
        let m = n1.index_of(t);
        assert(n1[m] == t);
    }
}

/// The table and the ids after interning the segments `segs` in order.
pub open spec fn intern_segs(names: Seq<Seq<char>>, segs: Seq<Seq<char>>) -> (
    Seq<Seq<char>>,
    Seq<u64>,
)
    decreases segs.len(),
{
    if segs.len() == 0 {
        (names, Seq::empty())
    } else {
        let (n1, ids) = intern_segs(names, segs.drop_last());
        let (n2, id) = interned(n1, segs.last());
        (n2, ids.push(id as u64))
    }
}

/// The table and the entries (position, segment ids) after interning the
/// segments of each path in turn, starting from an empty table.
pub open spec fn intern_paths(paths: Seq<Seq<char>>) -> (Seq<Seq<char>>, Seq<(usize, Seq<u64>)>)
    decreases paths.len(),
{
    if paths.len() == 0 {
        (Seq::empty(), Seq::empty())
    } else {
        let (n1, es) = intern_paths(paths.drop_last());
        let (n2, ids) = intern_segs(n1, split_segments(paths.last()));
        (n2, es.push(((paths.len() - 1) as usize, ids)))
    }
}

/// The number of segments over all the paths.
pub open spec fn total_segments(paths: Seq<Seq<char>>) -> int
    decreases paths.len(),
{
    if paths.len() == 0 {
        0
    } else {
        total_segments(paths.drop_last()) + split_segments(paths.last()).len()
    }
}

pub proof fn lemma_total_segments_prefix(paths: Seq<Seq<char>>, i: int)
    requires
        0 <= i <= paths.len(),
    ensures
        total_segments(paths.take(i)) <= total_segments(paths),
    decreases paths.len(),
{
    if i < paths.len() {
        lemma_total_segments_prefix(paths.drop_last(), i);
        assert(paths.drop_last().take(i) == paths.take(i));
    } else {
        assert(paths.take(i) == paths);
    }
}

/// Interns each segment of `segs` in order, giving their ids.
pub fn intern_all(table: &mut StringInterner, segs: &Vec<String>) -> (ids: Vec<u64>)
    requires
        old(table).wf(),
        old(table)@.len() + segs@.len() < u64::MAX,
    ensures
        final(table).wf(),
        (final(table)@, ids@) == intern_segs(old(table)@, views(segs@)),
        final(table)@.len() <= old(table)@.len() + segs@.len(),
{
    let ghost start = table@;
    let mut ids: Vec<u64> = Vec::new();
    let mut j: usize = 0;
    while j < segs.len()
        invariant
            start == old(table)@,
            table.wf(),
            j <= segs@.len(),
            start.len() + segs@.len() < u64::MAX,
            table@.len() <= start.len() + j,
            (table@, ids@) == intern_segs(start, views(segs@).take(j as int)),
        decreases segs@.len() - j,
    {
        let ghost before = table@;
        proof {
            lemma_interning_laws(table@, segs@[j as int]@, segs@[j as int]@);
        }
        let id = table.intern(segs[j].as_str());
        ids.push(id);
        assert(views(segs@).take(j + 1).drop_last() == views(segs@).take(j as int));
        j = j + 1;
    }
    assert(views(segs@).take(segs@.len() as int) == views(segs@));
    ids
}

/// Interning only adds to the table, and every id it gives names an entry
/// of the table it leaves.
pub proof fn lemma_intern_segs_bounds(names: Seq<Seq<char>>, segs: Seq<Seq<char>>)
    requires
        names.len() + segs.len() < u64::MAX,
    ensures
        intern_segs(names, segs).0.len() <= names.len() + segs.len(),
        intern_segs(names, segs).0.len() >= names.len(),
        intern_segs(names, segs).1.len() == segs.len(),
        forall|j: int|
            0 <= j < segs.len() ==> 1 <= #[trigger] intern_segs(names, segs).1[j]
                <= intern_segs(names, segs).0.len(),
    decreases segs.len(),
{
    if segs.len() > 0 {
        lemma_intern_segs_bounds(names, segs.drop_last());
        let (n1, ids) = intern_segs(names, segs.drop_last());
        let s = segs.last();
        if n1.contains(s) {
            let k = n1.index_of(s);
            assert(n1[k] == s);
        }
        let r = intern_segs(names, segs).1;
        assert(r[segs.len() - 1] == interned(n1, s).1 as u64);
        assert forall|j: int| 0 <= j < segs.len() implies 1 <= #[trigger] r[j] <= intern_segs(
            names,
            segs,
        ).0.len() by {
            if j < segs.len() - 1 {
                assert(r[j] == ids[j]);
            }
        }
    }
}

} // verus!
