//! Stable sorting by a "sorts before" relation.
//!
//! The order in which the viewer lists packages is defined by insertion:
//! each element goes after every element placed before it that it does not
//! sort before. For a strict weak order this is the stable sort that
//! `slice::sort_by` computes.

use vstd::prelude::*;
use vstd::multiset::Multiset;

verus! {

/// Where `x` goes in `s`: after the last element that it does not sort before.
pub open spec fn insert_pos<T>(s: Seq<T>, x: T, lt: spec_fn(T, T) -> bool) -> int
    decreases s.len(),
{
    if s.len() == 0 {
        0
    } else if lt(x, s.last()) {
        insert_pos(s.drop_last(), x, lt)
    } else {
        s.len() as int
    }
}

/// `s` with `x` inserted at `insert_pos`.
pub open spec fn insert_sorted<T>(s: Seq<T>, x: T, lt: spec_fn(T, T) -> bool) -> Seq<T> {
    s.insert(insert_pos(s, x, lt), x)
}

/// The elements of `s`, inserted one after the other, first to last.
pub open spec fn sorted_by_insertion<T>(s: Seq<T>, lt: spec_fn(T, T) -> bool) -> Seq<T>
    decreases s.len(),
{
    if s.len() == 0 {
        s
    } else {
        insert_sorted(sorted_by_insertion(s.drop_last(), lt), s.last(), lt)
    }
}

/// `lt` is a strict weak order: irreflexive, transitive, and "neither before
/// the other" is transitive too.
pub open spec fn strict_weak_order<T>(lt: spec_fn(T, T) -> bool) -> bool {
    &&& forall|a: T| !#[trigger] lt(a, a)
    &&& forall|a: T, b: T, c: T| #[trigger] lt(a, b) && #[trigger] lt(b, c) ==> lt(a, c)
    &&& forall|a: T, b: T, c: T|
        !#[trigger] lt(a, b) && !#[trigger] lt(b, c) ==> !lt(a, c)
}

/// No element sorts before one that comes earlier.
pub open spec fn is_sorted_by<T>(s: Seq<T>, lt: spec_fn(T, T) -> bool) -> bool {
    forall|i: int, j: int| 0 <= i < j < s.len() ==> !lt(#[trigger] s[j], #[trigger] s[i])
}

/// Sorting a sorted sequence changes nothing.
pub proof fn lemma_sorted_unchanged<T>(s: Seq<T>, lt: spec_fn(T, T) -> bool)
    requires
        is_sorted_by(s, lt),
    ensures
        sorted_by_insertion(s, lt) == s,
    decreases s.len(),
{
    if s.len() > 0 {
        let d = s.drop_last();
        assert forall|i: int, j: int| 0 <= i < j < d.len() implies !lt(#[trigger] d[j], #[trigger] d[i]) by {
            assert(d[i] == s[i] && d[j] == s[j]);
        }
        lemma_sorted_unchanged(d, lt);
        if d.len() > 0 {
            assert(!lt(s[s.len() - 1], s[s.len() - 2]));
            assert(d.last() == s[s.len() - 2]);
        }
        assert(insert_pos(d, s.last(), lt) == d.len());
        assert(d.insert(d.len() as int, s.last()) =~= s);
    }
}

/// What characterises the insertion position.
pub proof fn lemma_insert_pos<T>(s: Seq<T>, x: T, lt: spec_fn(T, T) -> bool)
    ensures
        0 <= insert_pos(s, x, lt) <= s.len(),
        forall|q: int| insert_pos(s, x, lt) <= q < s.len() ==> lt(x, #[trigger] s[q]),
        insert_pos(s, x, lt) > 0 ==> !lt(x, s[insert_pos(s, x, lt) - 1]),
    decreases s.len(),
{
    if s.len() > 0 && lt(x, s.last()) {
        lemma_insert_pos(s.drop_last(), x, lt);
        let p = insert_pos(s, x, lt);
        assert forall|q: int| p <= q < s.len() implies lt(x, #[trigger] s[q]) by {
            if q < s.len() - 1 {
                assert(s.drop_last()[q] == s[q]);
            }
        }
        if p > 0 {
            assert(s.drop_last()[p - 1] == s[p - 1]);
        }
    }
}

/// The insertion position is the only one with that characterisation.
pub proof fn lemma_insert_pos_unique<T>(s: Seq<T>, x: T, lt: spec_fn(T, T) -> bool, p: int)
    requires
        0 <= p <= s.len(),
        forall|q: int| p <= q < s.len() ==> lt(x, #[trigger] s[q]),
        p > 0 ==> !lt(x, s[p - 1]),
    ensures
        insert_pos(s, x, lt) == p,
    decreases s.len(),
{
    if s.len() > 0 && p < s.len() {
        assert(lt(x, s[s.len() - 1]));
        assert forall|q: int| p <= q < s.drop_last().len() implies lt(x, #[trigger] s.drop_last()[q]) by {
            assert(s.drop_last()[q] == s[q]);
        }
        if p > 0 {
            assert(s.drop_last()[p - 1] == s[p - 1]);
        }
        lemma_insert_pos_unique(s.drop_last(), x, lt, p);
    }
}

/// Inserting keeps a sorted sequence sorted.
pub proof fn lemma_insert_sorted<T>(s: Seq<T>, x: T, lt: spec_fn(T, T) -> bool)
    requires
        strict_weak_order(lt),
        is_sorted_by(s, lt),
    ensures
        is_sorted_by(insert_sorted(s, x, lt), lt),
        insert_sorted(s, x, lt).to_multiset() == s.to_multiset().insert(x),
{
    broadcast use vstd::seq_lib::group_to_multiset_ensures;

    lemma_insert_pos(s, x, lt);
    let p = insert_pos(s, x, lt);
    let r = insert_sorted(s, x, lt);
    assert(r[p] == x);
    assert forall|i: int, j: int| 0 <= i < j < r.len() implies !lt(#[trigger] r[j], #[trigger] r[i]) by {
        if j < p {
            assert(r[i] == s[i] && r[j] == s[j]);
        } else if j == p {
            assert(r[i] == s[i]);
            if i < p - 1 {
                assert(!lt(s[p - 1], s[i]));
            }
        } else if i < p {
            assert(r[i] == s[i] && r[j] == s[j - 1]);
        } else if i == p {
            assert(r[j] == s[j - 1]);
            assert(lt(x, s[j - 1]));
        } else {
            assert(r[i] == s[i - 1] && r[j] == s[j - 1]);
        }
    }
    assert(r.remove(p) =~= s);
    assert(r.remove(p).to_multiset() =~= r.to_multiset().remove(x));
    assert(r.to_multiset().contains(x));
    assert(r.to_multiset() =~= s.to_multiset().insert(x));
}

/// Sorting by insertion gives a sorted rearrangement of its input.
pub proof fn lemma_sorted_by_insertion<T>(s: Seq<T>, lt: spec_fn(T, T) -> bool)
    requires
        strict_weak_order(lt),
    ensures
        is_sorted_by(sorted_by_insertion(s, lt), lt),
        sorted_by_insertion(s, lt).to_multiset() == s.to_multiset(),
        sorted_by_insertion(s, lt).len() == s.len(),
    decreases s.len(),
{
    broadcast use vstd::seq_lib::group_to_multiset_ensures;

    if s.len() > 0 {
        let t = sorted_by_insertion(s.drop_last(), lt);
        lemma_sorted_by_insertion(s.drop_last(), lt);
        lemma_insert_sorted(t, s.last(), lt);
        lemma_insert_pos(t, s.last(), lt);
        assert(s =~= s.drop_last().push(s.last()));
    } else {
        assert(s.to_multiset() =~= Multiset::empty());
    }
}

/// Sorts `v` by insertion, `before(a, b)` telling whether `a` sorts before `b`.
pub fn insertion_sort<T, F: Fn(&T, &T) -> bool>(
    v: Vec<T>,
    before: F,
    Ghost(lt): Ghost<spec_fn(T, T) -> bool>,
) -> (r: Vec<T>)
    requires
        forall|a: &T, b: &T| #[trigger] before.requires((a, b)),
        forall|a: &T, b: &T, res: bool| #[trigger] before.ensures((a, b), res) ==> res == lt(*a, *b),
    ensures
        r@ == sorted_by_insertion(v@, lt),
{
    let ghost orig = v@;
    let mut v = v;
    let mut out: Vec<T> = Vec::new();
    let n = v.len();
    let mut i: usize = 0;
    assert(orig.take(0) =~= Seq::<T>::empty());
    while i < n
        invariant
            n == orig.len(),
            i <= n,
            v@ == orig.skip(i as int),
            out@ == sorted_by_insertion(orig.take(i as int), lt),
            forall|a: &T, b: &T| #[trigger] before.requires((a, b)),
            forall|a: &T, b: &T, res: bool| #[trigger] before.ensures((a, b), res) ==> res == lt(*a, *b),
        decreases n - i,
    {
        let x = v.remove(0);
        assert(x == orig[i as int]);
        assert(v@ =~= orig.skip(i + 1));
        let mut p = out.len();
        while p > 0 && before(&x, &out[p - 1])
            invariant
                p <= out@.len(),
                forall|q: int| p <= q < out@.len() ==> lt(x, #[trigger] out@[q]),
                forall|a: &T, b: &T| #[trigger] before.requires((a, b)),
                forall|a: &T, b: &T, res: bool| #[trigger] before.ensures((a, b), res) ==> res == lt(*a, *b),
            decreases p,
        {
            p = p - 1;
        }
        proof {
            lemma_insert_pos_unique(out@, x, lt, p as int);
            assert(orig.take(i + 1).drop_last() =~= orig.take(i as int));
            assert(orig.take(i + 1).last() == x);
        }
        out.insert(p, x);
        i = i + 1;
    }
    assert(orig.take(n as int) =~= orig);
    out
}

/// The insertion position only depends on what the order sees.
proof fn lemma_insert_pos_map<T, U>(
    s: Seq<T>,
    x: T,
    f: spec_fn(T) -> U,
    lt: spec_fn(T, T) -> bool,
    ltu: spec_fn(U, U) -> bool,
)
    requires
        forall|a: T, b: T| #[trigger] lt(a, b) == ltu(f(a), f(b)),
    ensures
        insert_pos(s, x, lt) == insert_pos(s.map_values(f), f(x), ltu),
    decreases s.len(),
{
    if s.len() > 0 {
        assert(s.map_values(f).drop_last() =~= s.drop_last().map_values(f));
        assert(s.map_values(f).last() == f(s.last()));
        assert(lt(x, s.last()) == ltu(f(x), f(s.last())));
        lemma_insert_pos_map(s.drop_last(), x, f, lt, ltu);
    }
}

/// Sorting commutes with a map that the orders agree on.
pub proof fn lemma_sorted_map<T, U>(
    s: Seq<T>,
    f: spec_fn(T) -> U,
    lt: spec_fn(T, T) -> bool,
    ltu: spec_fn(U, U) -> bool,
)
    requires
        forall|a: T, b: T| #[trigger] lt(a, b) == ltu(f(a), f(b)),
    ensures
        sorted_by_insertion(s, lt).map_values(f) == sorted_by_insertion(s.map_values(f), ltu),
    decreases s.len(),
{
    if s.len() > 0 {
        lemma_sorted_map(s.drop_last(), f, lt, ltu);
        let t = sorted_by_insertion(s.drop_last(), lt);
        assert(s.map_values(f).drop_last() =~= s.drop_last().map_values(f));
        assert(s.map_values(f).last() == f(s.last()));
        lemma_insert_pos_map(t, s.last(), f, lt, ltu);
        lemma_insert_pos(t, s.last(), lt);
        let p = insert_pos(t, s.last(), lt);
        assert(t.insert(p, s.last()).map_values(f) =~= t.map_values(f).insert(p, f(s.last())));
    } else {
        assert(s.map_values(f) =~= Seq::<U>::empty());
    }
}

} // verus!
