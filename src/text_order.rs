//! Lexicographic order on character sequences, the order in which sibling
//! names of a display tree are listed.

use vstd::prelude::*;

verus! {

/// `a` sorts strictly before `b`: compared character by character by code
/// point, a proper prefix sorting first.
pub open spec fn seq_lt(a: Seq<char>, b: Seq<char>) -> bool
    decreases a.len(),
{
    if a.len() == 0 {
        b.len() > 0
    } else if b.len() == 0 {
        false
    } else if a[0] != b[0] {
        a[0] < b[0]
    } else {
        seq_lt(a.drop_first(), b.drop_first())
    }
}

pub proof fn lemma_lt_irreflexive(a: Seq<char>)
    ensures
        !seq_lt(a, a),
    decreases a.len(),
{
    if a.len() > 0 {
        lemma_lt_irreflexive(a.drop_first());
    }
}

pub proof fn lemma_lt_total(a: Seq<char>, b: Seq<char>)
    ensures
        a != b ==> seq_lt(a, b) || seq_lt(b, a),
        !(seq_lt(a, b) && seq_lt(b, a)),
    decreases a.len(),
{
    if a.len() > 0 && b.len() > 0 {
        lemma_lt_total(a.drop_first(), b.drop_first());
        if a[0] == b[0] && a != b {
            assert(a == seq![a[0]] + a.drop_first());
            assert(b == seq![b[0]] + b.drop_first());
        }
    } else if a.len() == 0 && b.len() == 0 {
        assert(a == b);
    }
}

pub proof fn lemma_lt_transitive(a: Seq<char>, b: Seq<char>, c: Seq<char>)
    requires
        seq_lt(a, b),
        seq_lt(b, c),
    ensures
        seq_lt(a, c),
    decreases a.len(),
{
    if a.len() > 0 && a[0] == b[0] && b[0] == c[0] {
        lemma_lt_transitive(a.drop_first(), b.drop_first(), c.drop_first());
    }
}

/// Compares two strings in the order `seq_lt` describes.
pub fn str_lt(a: &str, b: &str) -> (r: bool)
    ensures
        r == seq_lt(a@, b@),
{
    let la = a.unicode_len();
    let lb = b.unicode_len();
    let mut i: usize = 0;
    assert(a@.subrange(0, la as int) == a@);
    assert(b@.subrange(0, lb as int) == b@);
    while i < la && i < lb
        invariant
            la == a@.len(),
            lb == b@.len(),
            i <= la,
            i <= lb,
            a@.subrange(0, i as int) == b@.subrange(0, i as int),
            seq_lt(a@, b@) == seq_lt(a@.subrange(i as int, la as int), b@.subrange(i as int, lb as int)),
        decreases la - i,
    {
        let ca = a.get_char(i);
        let cb = b.get_char(i);
        if ca != cb {
            assert(a@.subrange(i as int, la as int)[0] == ca);
            assert(b@.subrange(i as int, lb as int)[0] == cb);
            return ca < cb;
        }
        assert(a@.subrange(i as int, la as int).drop_first() == a@.subrange(i + 1, la as int));
        assert(b@.subrange(i as int, lb as int).drop_first() == b@.subrange(i + 1, lb as int));
        assert(a@.subrange(0, i + 1) == a@.subrange(0, i as int).push(ca));
        assert(b@.subrange(0, i + 1) == b@.subrange(0, i as int).push(cb));
        i = i + 1;
    }
    i < lb
}

} // verus!
