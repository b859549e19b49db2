//! A map keyed by package name, kept sorted by name.
//!
//! It stands where the viewer keeps `HashMap<String, _>` and `HashSet<String>`:
//! lookups are binary searches in name order, and walking the entries
//! visits the names in that order.

use vstd::prelude::*;
use vstd::seq_lib::seq_to_set_is_finite;
use crate::names::{NameOrder, compare_names, name_lt, lemma_name_order};

verus! {

/// Entries sorted strictly by name; no name occurs twice.
pub struct NameMap<V> {
    entries: Vec<(String, V)>,
}

/// A set of names.
pub type NameSet = NameMap<()>;

/// The names of a list of entries.
pub open spec fn keys_of<V>(es: Seq<(String, V)>) -> Seq<Seq<char>> {
    es.map_values(|e: (String, V)| e.0@)
}

/// Each name sorts strictly before the names after it.
pub open spec fn sorted_entries<V>(es: Seq<(String, V)>) -> bool {
    forall|i: int, j: int|
        0 <= i < j < es.len() ==> name_lt(#[trigger] es[i].0@, #[trigger] es[j].0@)
}

/// The map that a list of entries stands for.
pub open spec fn map_of<V>(es: Seq<(String, V)>) -> Map<Seq<char>, V> {
    Map::new(
        |k: Seq<char>| exists|i: int| 0 <= i < es.len() && #[trigger] es[i].0@ == k,
        |k: Seq<char>| es[position_of(es, k)].1,
    )
}

/// A position at which the name `k` stands.
pub open spec fn position_of<V>(es: Seq<(String, V)>, k: Seq<char>) -> int {
    choose|i: int| 0 <= i < es.len() && #[trigger] es[i].0@ == k
}

/// In sorted entries each name is found at its own position.
pub proof fn lemma_map_of<V>(es: Seq<(String, V)>)
    requires
        sorted_entries(es),
    ensures
        forall|i: int|
            0 <= i < es.len() ==> #[trigger] map_of(es).contains_key(es[i].0@) && map_of(es)[es[i].0@]
                == es[i].1,
        forall|k: Seq<char>|
            #[trigger] map_of(es).contains_key(k) ==> exists|i: int|
                0 <= i < es.len() && #[trigger] es[i].0@ == k,
        map_of(es).dom() == keys_of(es).to_set(),
        map_of(es).dom().finite(),
        map_of(es).dom().len() == es.len(),
        keys_of(es).no_duplicates(),
{
    let m = map_of(es);
    assert forall|i: int| 0 <= i < es.len() implies #[trigger] m.contains_key(es[i].0@) && m[es[i].0@]
        == es[i].1 by {
        let k = es[i].0@;
        assert(m.contains_key(k));
        let j = position_of(es, k);
        assert(0 <= j < es.len() && es[j].0@ == k);
        assert(m[k] == es[j].1);
        if j != i {
            if i < j {
                lemma_name_order(es[i].0@, es[j].0@, es[j].0@);
            } else {
                lemma_name_order(es[j].0@, es[i].0@, es[i].0@);
            }
        }
    }
    let ks = keys_of(es);
    assert forall|k: Seq<char>| m.dom().contains(k) <==> ks.to_set().contains(k) by {
        if m.dom().contains(k) {
            let i = choose|i: int| 0 <= i < es.len() && #[trigger] es[i].0@ == k;
            assert(ks[i] == k);
        }
        if ks.to_set().contains(k) {
            let i = choose|i: int| 0 <= i < ks.len() && ks[i] == k;
            assert(es[i].0@ == k);
        }
    }
    assert(m.dom() =~= ks.to_set());
    seq_to_set_is_finite(ks);
    assert forall|i: int, j: int| 0 <= i < ks.len() && 0 <= j < ks.len() && i != j implies ks[i]
        != ks[j] by {
        if i < j {
            lemma_name_order(es[i].0@, es[j].0@, es[j].0@);
        } else {
            lemma_name_order(es[j].0@, es[i].0@, es[i].0@);
        }
    }
    ks.unique_seq_to_set();
}

/// Replacing the value at a name's own position.
proof fn lemma_map_of_update<V>(es: Seq<(String, V)>, i: int, e: (String, V))
    requires
        sorted_entries(es),
        0 <= i < es.len(),
        es[i].0@ == e.0@,
    ensures
        sorted_entries(es.update(i, e)),
        map_of(es.update(i, e)) == map_of(es).insert(e.0@, e.1),
{
    let ns = es.update(i, e);
    assert forall|a: int, b: int| 0 <= a < b < ns.len() implies name_lt(
        #[trigger] ns[a].0@,
        #[trigger] ns[b].0@,
    ) by {
        if a != i {
            assert(ns[a] == es[a]);
        }
        if b != i {
            assert(ns[b] == es[b]);
        }
    }
    lemma_map_of(es);
    lemma_map_of(ns);
    let m = map_of(es).insert(e.0@, e.1);
    assert forall|k: Seq<char>| #[trigger] map_of(ns).contains_key(k) <==> m.contains_key(k) by {
        if map_of(ns).contains_key(k) {
            let j = choose|j: int| 0 <= j < ns.len() && #[trigger] ns[j].0@ == k;
            if j != i {
                assert(ns[j] == es[j]);
                assert(map_of(es).contains_key(es[j].0@));
            }
        }
        if m.contains_key(k) {
            if k == e.0@ {
                assert(map_of(ns).contains_key(ns[i].0@));
            } else {
                assert(map_of(es).contains_key(k));
                let j = choose|j: int| 0 <= j < es.len() && #[trigger] es[j].0@ == k;
                assert(ns[j] == es[j]);
                assert(map_of(ns).contains_key(ns[j].0@));
            }
        }
    }
    assert forall|k: Seq<char>| #[trigger] map_of(ns).contains_key(k) implies map_of(ns)[k] == m[k] by {
        let j = choose|j: int| 0 <= j < ns.len() && #[trigger] ns[j].0@ == k;
        assert(map_of(ns).contains_key(ns[j].0@));
        if j != i {
            assert(es[j] == ns[j]);
            assert(map_of(es).contains_key(es[j].0@));
            if j < i {
                lemma_name_order(es[j].0@, es[i].0@, es[i].0@);
            } else {
                lemma_name_order(es[i].0@, es[j].0@, es[j].0@);
            }
        }
    }
    assert(map_of(ns) =~= m);
}

/// Inserting a new name at the position that keeps the names sorted.
proof fn lemma_map_of_insert<V>(es: Seq<(String, V)>, i: int, e: (String, V))
    requires
        sorted_entries(es),
        0 <= i <= es.len(),
        forall|j: int| 0 <= j < i ==> name_lt(#[trigger] es[j].0@, e.0@),
        forall|j: int| i <= j < es.len() ==> name_lt(e.0@, #[trigger] es[j].0@),
    ensures
        sorted_entries(es.insert(i, e)),
        map_of(es.insert(i, e)) == map_of(es).insert(e.0@, e.1),
{
    let ns = es.insert(i, e);
    assert forall|a: int, b: int| 0 <= a < b < ns.len() implies name_lt(
        #[trigger] ns[a].0@,
        #[trigger] ns[b].0@,
    ) by {
        if b < i {
            assert(ns[a] == es[a] && ns[b] == es[b]);
        } else if b == i {
            assert(ns[a] == es[a]);
        } else if a < i {
            assert(ns[a] == es[a] && ns[b] == es[b - 1]);
        } else if a == i {
            assert(ns[b] == es[b - 1]);
        } else {
            assert(ns[a] == es[a - 1] && ns[b] == es[b - 1]);
        }
    }
    lemma_map_of(es);
    lemma_map_of(ns);
    let m = map_of(es).insert(e.0@, e.1);
    assert(ns[i] == e);
    assert forall|k: Seq<char>| #[trigger] map_of(ns).contains_key(k) <==> m.contains_key(k) by {
        if map_of(ns).contains_key(k) {
            let j = choose|j: int| 0 <= j < ns.len() && #[trigger] ns[j].0@ == k;
            if j < i {
                assert(ns[j] == es[j]);
                assert(map_of(es).contains_key(es[j].0@));
            } else if j > i {
                assert(ns[j] == es[j - 1]);
                assert(map_of(es).contains_key(es[j - 1].0@));
            }
        }
        if m.contains_key(k) {
            if k == e.0@ {
                assert(map_of(ns).contains_key(ns[i].0@));
            } else {
                assert(map_of(es).contains_key(k));
                let j = choose|j: int| 0 <= j < es.len() && #[trigger] es[j].0@ == k;
                if j < i {
                    assert(ns[j] == es[j]);
                    assert(map_of(ns).contains_key(ns[j].0@));
                } else {
                    assert(ns[j + 1] == es[j]);
                    assert(map_of(ns).contains_key(ns[j + 1].0@));
                }
            }
        }
    }
    assert forall|k: Seq<char>| #[trigger] map_of(ns).contains_key(k) implies map_of(ns)[k] == m[k] by {
        let j = choose|j: int| 0 <= j < ns.len() && #[trigger] ns[j].0@ == k;
        assert(map_of(ns).contains_key(ns[j].0@));
        if j < i {
            assert(es[j] == ns[j]);
            assert(map_of(es).contains_key(es[j].0@));
            lemma_name_order(es[j].0@, e.0@, e.0@);
        } else if j > i {
            assert(es[j - 1] == ns[j]);
            assert(map_of(es).contains_key(es[j - 1].0@));
            lemma_name_order(e.0@, es[j - 1].0@, es[j - 1].0@);
        }
    }
    assert(map_of(ns) =~= m);
}

impl<V> NameMap<V> {
    #[verifier::type_invariant]
    spec fn sorted(self) -> bool {
        sorted_entries(self.entries@)
    }

    /// The names, in ascending order.
    pub closed spec fn keys(&self) -> Seq<Seq<char>> {
        keys_of(self.entries@)
    }

    /// The values, in the order of their names.
    pub closed spec fn values(&self) -> Seq<V> {
        self.entries@.map_values(|e: (String, V)| e.1)
    }

    /// The map from names to values.
    pub closed spec fn view(&self) -> Map<Seq<char>, V> {
        map_of(self.entries@)
    }

    /// How the names, the values and the view fit together.
    pub open spec fn listed(&self) -> bool {
        &&& self.keys().len() == self.values().len()
        &&& forall|i: int, j: int|
            0 <= i < j < self.keys().len() ==> name_lt(
                #[trigger] self.keys()[i],
                #[trigger] self.keys()[j],
            )
        &&& forall|i: int|
            0 <= i < self.keys().len() ==> #[trigger] self@.contains_key(self.keys()[i])
                && self@[self.keys()[i]] == self.values()[i]
        &&& forall|k: Seq<char>| #[trigger] self@.contains_key(k) <==> self.keys().contains(k)
        &&& self@.dom() == self.keys().to_set()
        &&& self@.dom().finite()
        &&& self@.dom().len() == self.keys().len()
        &&& self.keys().no_duplicates()
    }

    proof fn lemma_listed(&self)
        requires
            sorted_entries(self.entries@),
        ensures
            self.listed(),
    {
        let es = self.entries@;
        lemma_map_of(es);
        let ks = self.keys();
        assert forall|i: int, j: int| 0 <= i < j < ks.len() implies name_lt(
            #[trigger] ks[i],
            #[trigger] ks[j],
        ) by {
            assert(ks[i] == es[i].0@ && ks[j] == es[j].0@);
        }
        assert forall|i: int|
            0 <= i < ks.len() implies #[trigger] self@.contains_key(ks[i]) && self@[ks[i]]
            == self.values()[i] by {
            assert(ks[i] == es[i].0@);
        }
        assert forall|k: Seq<char>| #[trigger] self@.contains_key(k) <==> ks.contains(k) by {
            assert(self@.dom().contains(k) <==> ks.to_set().contains(k));
        }
    }

    /// An empty map.
    pub fn new() -> (r: Self)
        ensures
            r@ == Map::<Seq<char>, V>::empty(),
            r.keys() == Seq::<Seq<char>>::empty(),
            r.listed(),
    {
        let r = NameMap { entries: Vec::new() };
        proof {
            r.lemma_listed();
        }
        assert(r@ =~= Map::<Seq<char>, V>::empty());
        assert(r.keys() =~= Seq::<Seq<char>>::empty());
        r
    }

    /// The number of names.
    pub fn len(&self) -> (n: usize)
        ensures
            n == self.keys().len(),
            n == self@.dom().len(),
            self.listed(),
    {
        proof {
            use_type_invariant(&*self);
            self.lemma_listed();
        }
        self.entries.len()
    }

    /// Where `k` stands among the names, or where it would go.
    fn find(&self, k: &str) -> (r: Result<usize, usize>)
        ensures
            match r {
                Ok(i) => i < self.keys().len() && self.keys()[i as int] == k@,
                Err(i) => i <= self.keys().len() && (forall|j: int|
                    0 <= j < i ==> name_lt(#[trigger] self.keys()[j], k@)) && (forall|j: int|
                    i <= j < self.keys().len() ==> name_lt(k@, #[trigger] self.keys()[j])),
            },
    {
        proof {
            use_type_invariant(&*self);
            self.lemma_listed();
        }
        let ghost ks = self.keys();
        let mut lo: usize = 0;
        let mut hi: usize = self.entries.len();
        while lo < hi
            invariant
                ks == self.keys(),
                ks.len() == self.entries@.len(),
                lo <= hi <= ks.len(),
                forall|i: int, j: int|
                    0 <= i < j < ks.len() ==> name_lt(#[trigger] ks[i], #[trigger] ks[j]),
                forall|j: int| 0 <= j < lo ==> name_lt(#[trigger] ks[j], k@),
                forall|j: int| hi <= j < ks.len() ==> name_lt(k@, #[trigger] ks[j]),
            decreases hi - lo,
        {
            let mid = lo + (hi - lo) / 2;
            let ghost m = ks[mid as int];
            assert(self.entries@[mid as int].0@ == m);
            match compare_names(k, self.entries[mid].0.as_str()) {
                NameOrder::Less => {
                    assert forall|j: int| mid <= j < ks.len() implies name_lt(
                        k@,
                        #[trigger] ks[j],
                    ) by {
                        if j > mid {
                            lemma_name_order(k@, m, ks[j]);
                        }
                    }
                    hi = mid;
                },
                NameOrder::Equal => {
                    return Ok(mid);
                },
                NameOrder::Greater => {
                    assert forall|j: int| 0 <= j <= mid implies name_lt(#[trigger] ks[j], k@) by {
                        if j < mid {
                            lemma_name_order(ks[j], m, k@);
                        }
                    }
                    lo = mid + 1;
                },
            }
        }
        Err(lo)
    }

    /// Whether `k` is one of the names.
    pub fn contains_key(&self, k: &str) -> (b: bool)
        ensures
            b == self@.contains_key(k@),
    {
        proof {
            use_type_invariant(&*self);
            self.lemma_listed();
        }
        match self.find(k) {
            Ok(_) => true,
            Err(i) => {
                proof {
                    lemma_not_found(self.keys(), k@, i as int);
                }
                false
            },
        }
    }

    /// The value stored under `k`.
    pub fn get(&self, k: &str) -> (r: Option<&V>)
        ensures
            match r {
                Some(v) => self@.contains_key(k@) && *v == self@[k@],
                None => !self@.contains_key(k@),
            },
    {
        proof {
            use_type_invariant(&*self);
            self.lemma_listed();
        }
        match self.find(k) {
            Ok(i) => {
                assert(self.values()[i as int] == self.entries@[i as int].1);
                assert(self@.contains_key(self.keys()[i as int]));
                Some(&self.entries[i].1)
            },
            Err(i) => {
                proof {
                    lemma_not_found(self.keys(), k@, i as int);
                }
                None
            },
        }
    }

    /// The `i`-th name and its value, in name order.
    pub fn entry(&self, i: usize) -> (r: (&String, &V))
        requires
            i < self.keys().len(),
        ensures
            r.0@ == self.keys()[i as int],
            *r.1 == self.values()[i as int],
            self.listed(),
    {
        proof {
            use_type_invariant(&*self);
            self.lemma_listed();
        }
        let e = &self.entries[i];
        (&e.0, &e.1)
    }

    /// Stores `v` under `k`, replacing what was stored there.
    pub fn insert(&mut self, k: String, v: V)
        ensures
            final(self)@ == old(self)@.insert(k@, v),
    {
        proof {
            use_type_invariant(&*self);
        }
        let pos = self.find(k.as_str());
        let ghost ks = self.keys();
        let mut es: Vec<(String, V)> = Vec::new();
        std::mem::swap(&mut es, &mut self.entries);
        let ghost old_es = es@;
        let ghost kv = k@;
        assert(forall|j: int| 0 <= j < old_es.len() ==> #[trigger] old_es[j].0@ == ks[j]);
        match pos {
            Ok(i) => {
                proof {
                    lemma_map_of_update(old_es, i as int, (k, v));
                }
                es.set(i, (k, v));
            },
            Err(i) => {
                proof {
                    lemma_map_of_insert(old_es, i as int, (k, v));
                }
                es.insert(i, (k, v));
            },
        }
        self.entries = es;
    }

    /// Removes the name `k`, with its value.
    pub fn remove(&mut self, k: &str)
        ensures
            final(self)@ == old(self)@.remove(k@),
    {
        proof {
            use_type_invariant(&*self);
            self.lemma_listed();
        }
        match self.find(k) {
            Ok(i) => {
                let mut es: Vec<(String, V)> = Vec::new();
                std::mem::swap(&mut es, &mut self.entries);
                let ghost old_es = es@;
                proof {
                    lemma_map_of_remove(old_es, i as int);
                }
                es.remove(i);
                self.entries = es;
            },
            Err(i) => {
                proof {
                    lemma_not_found(self.keys(), k@, i as int);
                    assert(self@.remove(k@) =~= self@);
                }
            },
        }
    }
}

/// Removing the entry at a position.
proof fn lemma_map_of_remove<V>(es: Seq<(String, V)>, i: int)
    requires
        sorted_entries(es),
        0 <= i < es.len(),
    ensures
        sorted_entries(es.remove(i)),
        map_of(es.remove(i)) == map_of(es).remove(es[i].0@),
{
    let ns = es.remove(i);
    assert forall|a: int, b: int| 0 <= a < b < ns.len() implies name_lt(
        #[trigger] ns[a].0@,
        #[trigger] ns[b].0@,
    ) by {
        if b < i {
            assert(ns[a] == es[a] && ns[b] == es[b]);
        } else if a < i {
            assert(ns[a] == es[a] && ns[b] == es[b + 1]);
        } else {
            assert(ns[a] == es[a + 1] && ns[b] == es[b + 1]);
        }
    }
    lemma_map_of(es);
    lemma_map_of(ns);
    let m = map_of(es).remove(es[i].0@);
    assert forall|k: Seq<char>| #[trigger] map_of(ns).contains_key(k) <==> m.contains_key(k) by {
        if map_of(ns).contains_key(k) {
            let j = choose|j: int| 0 <= j < ns.len() && #[trigger] ns[j].0@ == k;
            if j < i {
                assert(ns[j] == es[j]);
                assert(map_of(es).contains_key(es[j].0@));
                lemma_name_order(es[j].0@, es[i].0@, es[i].0@);
            } else {
                assert(ns[j] == es[j + 1]);
                assert(map_of(es).contains_key(es[j + 1].0@));
                lemma_name_order(es[i].0@, es[j + 1].0@, es[j + 1].0@);
            }
        }
        if m.contains_key(k) {
            assert(map_of(es).contains_key(k));
            let j = choose|j: int| 0 <= j < es.len() && #[trigger] es[j].0@ == k;
            if j < i {
                assert(ns[j] == es[j]);
                assert(map_of(ns).contains_key(ns[j].0@));
            } else {
                assert(j != i);
                assert(ns[j - 1] == es[j]);
                assert(map_of(ns).contains_key(ns[j - 1].0@));
            }
        }
    }
    assert forall|k: Seq<char>| #[trigger] map_of(ns).contains_key(k) implies map_of(ns)[k] == m[k] by {
        let j = choose|j: int| 0 <= j < ns.len() && #[trigger] ns[j].0@ == k;
        assert(map_of(ns).contains_key(ns[j].0@));
        if j < i {
            assert(es[j] == ns[j]);
            assert(map_of(es).contains_key(es[j].0@));
        } else {
            assert(es[j + 1] == ns[j]);
            assert(map_of(es).contains_key(es[j + 1].0@));
        }
    }
    assert(map_of(ns) =~= m);
}

/// A name that sorts after all names before position `i` and before all
/// names from `i` on is not among the names.
proof fn lemma_not_found(ks: Seq<Seq<char>>, k: Seq<char>, i: int)
    requires
        0 <= i <= ks.len(),
        forall|j: int| 0 <= j < i ==> name_lt(#[trigger] ks[j], k),
        forall|j: int| i <= j < ks.len() ==> name_lt(k, #[trigger] ks[j]),
    ensures
        !ks.contains(k),
{
    if ks.contains(k) {
        let j = choose|j: int| 0 <= j < ks.len() && ks[j] == k;
        lemma_name_order(k, k, k);
    }
}

} // verus!
